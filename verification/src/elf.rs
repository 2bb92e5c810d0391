//! Reading the loadable segments of an x86_64 ELF64 executable.
use vstd::prelude::*;
use crate::bytes::{le_at, read_u16_le, read_u32_le, read_u64_le};

verus! {

pub const ELFCLASS64: u8 = 2;
pub const ELFDATA2LSB: u8 = 1;
pub const ET_EXEC: u16 = 2;
pub const ET_DYN: u16 = 3;
pub const EM_X86_64: u16 = 62;
pub const PT_LOAD: u32 = 1;
pub const PF_X: u32 = 0x1;
pub const PF_W: u32 = 0x2;
pub const PF_R: u32 = 0x4;

/// Size of an ELF64 program header as far as this reader looks at it.
pub const PHDR_MIN_SIZE: usize = 56;

/// One `PT_LOAD` program header.
#[derive(Clone, Copy, Debug, PartialEq, Eq)]
pub struct ElfSegment {
    pub p_flags: u32,
    pub p_offset: u64,
    pub p_vaddr: u64,
    pub p_filesz: u64,
    pub p_memsz: u64,
}

/// What the converter needs of an ELF file.
#[derive(Debug)]
pub struct ElfInfo {
    pub e_type: u16,
    pub e_entry: u64,
    pub segments: Vec<ElfSegment>,
}

/// The mathematical value of an [`ElfInfo`].
pub ghost struct ElfModel {
    pub e_type: u16,
    pub e_entry: u64,
    pub segments: Seq<ElfSegment>,
}

impl View for ElfInfo {
    type V = ElfModel;

    open spec fn view(&self) -> ElfModel {
        ElfModel { e_type: self.e_type, e_entry: self.e_entry, segments: self.segments@ }
    }
}

/// Why an input is not an ELF file that can be converted.
#[derive(Debug, PartialEq, Eq)]
pub enum ElfError {
    /// Fewer than 64 bytes.
    TooSmall,
    /// The first four bytes, which are not `7f 'E' 'L' 'F'`.
    BadMagic(u8, u8, u8, u8),
    NotElf64,
    NotLittleEndian,
    /// The `e_type` that is neither `ET_EXEC` nor `ET_DYN`.
    NotExecutable(u16),
    /// The `e_machine` that is not x86_64.
    NotX86_64(u16),
    ProgramHeaderTooSmall,
    /// The index of a program header that does not lie within the file.
    ProgramHeaderOutOfFile(usize),
    /// The index of a loadable segment whose bytes do not lie within the file.
    SegmentOutOfFile(usize),
    NoLoadSegments,
}

pub open spec fn elf_magic() -> Seq<u8> {
    seq![0x7fu8, 0x45u8, 0x4cu8, 0x46u8]
}

/// The program header at `off`, whose 56 bytes lie in `d`.
pub open spec fn phdr_segment(d: Seq<u8>, off: int) -> ElfSegment {
    ElfSegment {
        p_flags: le_at(d, off + 4, 4) as u32,
        p_offset: le_at(d, off + 8, 8) as u64,
        p_vaddr: le_at(d, off + 16, 8) as u64,
        p_filesz: le_at(d, off + 32, 8) as u64,
        p_memsz: le_at(d, off + 40, 8) as u64,
    }
}

/// Walks the program headers `i..n`, keeping the loadable ones with a non-empty memory image.
pub open spec fn scan_phdrs(
    d: Seq<u8>,
    phoff: nat,
    phentsize: nat,
    i: nat,
    n: nat,
    acc: Seq<ElfSegment>,
) -> Result<Seq<ElfSegment>, ElfError>
    decreases n - i,
{
    if i >= n {
        Ok(acc)
    } else {
        let off: int = (phoff + i * phentsize) as int;
        if off + 56 > d.len() {
            Err(ElfError::ProgramHeaderOutOfFile(i as usize))
        } else {
            let seg = phdr_segment(d, off);
            if le_at(d, off, 4) != 1 || seg.p_memsz == 0 {
                scan_phdrs(d, phoff, phentsize, i + 1, n, acc)
            } else if seg.p_offset + seg.p_filesz > d.len() {
                Err(ElfError::SegmentOutOfFile(i as usize))
            } else {
                scan_phdrs(d, phoff, phentsize, i + 1, n, acc.push(seg))
            }
        }
    }
}

/// What an ELF file holds, or why it is refused.
pub open spec fn spec_parse_elf(d: Seq<u8>) -> Result<ElfModel, ElfError> {
    if d.len() < 64 {
        Err(ElfError::TooSmall)
    } else if d.subrange(0, 4) != elf_magic() {
        Err(ElfError::BadMagic(d[0], d[1], d[2], d[3]))
    } else if d[4] != 2 {
        Err(ElfError::NotElf64)
    } else if d[5] != 1 {
        Err(ElfError::NotLittleEndian)
    } else {
        let e_type = le_at(d, 16, 2);
        let e_machine = le_at(d, 18, 2);
        let e_entry = le_at(d, 24, 8);
        let e_phoff = le_at(d, 32, 8);
        let e_phentsize = le_at(d, 54, 2);
        let e_phnum = le_at(d, 56, 2);
        if e_type != 2 && e_type != 3 {
            Err(ElfError::NotExecutable(e_type as u16))
        } else if e_machine != 62 {
            Err(ElfError::NotX86_64(e_machine as u16))
        } else if e_phentsize < 56 {
            Err(ElfError::ProgramHeaderTooSmall)
        } else {
            match scan_phdrs(d, e_phoff, e_phentsize, 0, e_phnum, Seq::empty()) {
                Err(e) => Err(e),
                Ok(segs) => if segs.len() == 0 {
                    Err(ElfError::NoLoadSegments)
                } else {
                    Ok(ElfModel { e_type: e_type as u16, e_entry: e_entry as u64, segments: segs })
                },
            }
        }
    }
}

/// Every segment has a non-empty memory image and its file bytes lie in `d`.
pub open spec fn segments_in_file(d: Seq<u8>, segs: Seq<ElfSegment>) -> bool {
    forall|j: int|
        0 <= j < segs.len() ==> #[trigger] segs[j].p_offset + segs[j].p_filesz <= d.len()
            && segs[j].p_memsz > 0
}

proof fn lemma_scan_in_file(
    d: Seq<u8>,
    phoff: nat,
    phentsize: nat,
    i: nat,
    n: nat,
    acc: Seq<ElfSegment>,
)
    requires
        segments_in_file(d, acc),
    ensures
        scan_phdrs(d, phoff, phentsize, i, n, acc) matches Ok(segs) ==> segments_in_file(d, segs),
    decreases n - i,
{
    if i < n {
        let off: int = (phoff + i * phentsize) as int;
        if off + 56 <= d.len() {
            let seg = phdr_segment(d, off);
            if le_at(d, off, 4) != 1 || seg.p_memsz == 0 {
                lemma_scan_in_file(d, phoff, phentsize, i + 1, n, acc);
            } else if seg.p_offset + seg.p_filesz <= d.len() {
                assert(segments_in_file(d, acc.push(seg)));
                lemma_scan_in_file(d, phoff, phentsize, i + 1, n, acc.push(seg));
            }
        }
    }
}

/// A parsed ELF file keeps its segments within the file, and has at least one.
pub proof fn lemma_parsed_elf_in_file(d: Seq<u8>)
    ensures
        spec_parse_elf(d) matches Ok(m) ==> segments_in_file(d, m.segments) && m.segments.len()
            > 0,
{
    if d.len() >= 64 {
        lemma_scan_in_file(
            d,
            le_at(d, 32, 8),
            le_at(d, 54, 2),
            0,
            le_at(d, 56, 2),
            Seq::empty(),
        );
    }
}

/// Program header `j` of a table at `phoff` with entries of `phentsize` bytes has type
/// `PT_LOAD` (1) and a non-empty memory image.
pub open spec fn header_is_load(d: Seq<u8>, phoff: nat, phentsize: nat, j: int) -> bool {
    &&& le_at(d, phoff + j * phentsize, 4) == 1
    &&& phdr_segment(d, phoff + j * phentsize).p_memsz != 0
}

/// `segs` are the program headers `js` of the table, read in increasing order; each of
/// them is a loadable header below `i`, and every loadable header below `i` is among them.
pub open spec fn segments_from_headers(
    d: Seq<u8>,
    phoff: nat,
    phentsize: nat,
    i: int,
    js: Seq<int>,
    segs: Seq<ElfSegment>,
) -> bool {
    &&& js.len() == segs.len()
    &&& forall|k: int|
        0 <= k < js.len() ==> 0 <= #[trigger] js[k] < i && header_is_load(d, phoff, phentsize, js[k])
            && segs[k] == phdr_segment(d, phoff + js[k] * phentsize)
    &&& forall|k1: int, k2: int| 0 <= k1 < k2 < js.len() ==> #[trigger] js[k1] < #[trigger] js[k2]
    &&& forall|j: int|
        0 <= j < i && #[trigger] header_is_load(d, phoff, phentsize, j) ==> js.contains(j)
}

proof fn lemma_scan_headers(
    d: Seq<u8>,
    phoff: nat,
    phentsize: nat,
    i: nat,
    n: nat,
    acc: Seq<ElfSegment>,
    js: Seq<int>,
) -> (res: Seq<int>)
    requires
        i <= n,
        segments_from_headers(d, phoff, phentsize, i as int, js, acc),
    ensures
        scan_phdrs(d, phoff, phentsize, i, n, acc) matches Ok(segs) ==> segments_from_headers(
            d,
            phoff,
            phentsize,
            n as int,
            res,
            segs,
        ),
    decreases n - i,
{
    if i >= n {
        js
    } else {
        let off: int = (phoff + i * phentsize) as int;
        if off + 56 > d.len() {
            js
        } else {
            let seg = phdr_segment(d, off);
            if le_at(d, off, 4) != 1 || seg.p_memsz == 0 {
                assert(!header_is_load(d, phoff, phentsize, i as int));
                assert forall|j: int|
                    0 <= j < i + 1 && #[trigger] header_is_load(
                        d,
                        phoff,
                        phentsize,
                        j,
                    ) implies js.contains(j) by {
                    if j < i {
                    }
                }
                lemma_scan_headers(d, phoff, phentsize, i + 1, n, acc, js)
            } else {
                let js2 = js.push(i as int);
                let acc2 = acc.push(seg);
                assert(header_is_load(d, phoff, phentsize, i as int));
                assert forall|k: int| 0 <= k < js2.len() implies 0 <= #[trigger] js2[k] < i + 1
                    && header_is_load(d, phoff, phentsize, js2[k]) && acc2[k] == phdr_segment(
                    d,
                    phoff + js2[k] * phentsize,
                ) by {
                    if k < js.len() {
                        assert(js2[k] == js[k]);
                    }
                }
                assert forall|k1: int, k2: int| 0 <= k1 < k2 < js2.len() implies #[trigger] js2[k1]
                    < #[trigger] js2[k2] by {
                    assert(js2[k1] == js[k1]);
                    if k2 < js.len() {
                        assert(js2[k2] == js[k2]);
                    }
                }
                assert forall|j: int|
                    0 <= j < i + 1 && #[trigger] header_is_load(
                        d,
                        phoff,
                        phentsize,
                        j,
                    ) implies js2.contains(j) by {
                    if j < i {
                        let k = choose|k: int| 0 <= k < js.len() && js[k] == j;
                        assert(js2[k] == j);
                    } else {
                        assert(js2[js.len() as int] == j);
                    }
                }
                if seg.p_offset + seg.p_filesz > d.len() {
                    js2
                } else {
                    lemma_scan_headers(d, phoff, phentsize, i + 1, n, acc2, js2)
                }
            }
        }
    }
}

/// Byte offset of the program header table of `d` (`e_phoff`).
pub open spec fn elf_phoff(d: Seq<u8>) -> nat {
    le_at(d, 32, 8)
}

/// Size of one program header of `d` (`e_phentsize`).
pub open spec fn elf_phentsize(d: Seq<u8>) -> nat {
    le_at(d, 54, 2)
}

/// Number of program headers of `d` (`e_phnum`).
pub open spec fn elf_phnum(d: Seq<u8>) -> nat {
    le_at(d, 56, 2)
}

proof fn lemma_load_headers_witness(d: Seq<u8>) -> (js: Seq<int>)
    requires
        d.len() >= 64,
    ensures
        spec_parse_elf(d) matches Ok(m) ==> segments_from_headers(
            d,
            elf_phoff(d),
            elf_phentsize(d),
            elf_phnum(d) as int,
            js,
            m.segments,
        ),
{
    let e: Seq<int> = Seq::empty();
    let s: Seq<ElfSegment> = Seq::empty();
    assert forall|j: int|
        0 <= j < 0 && #[trigger] header_is_load(
            d,
            elf_phoff(d),
            elf_phentsize(d),
            j,
        ) implies e.contains(j) by {}
    lemma_scan_headers(d, elf_phoff(d), elf_phentsize(d), 0, elf_phnum(d), s, e)
}

/// `segs` are the `PT_LOAD` program headers of `d` with a non-empty memory image, in the
/// order of the program header table, each read once, none left out.
pub open spec fn segments_are_load_headers(d: Seq<u8>, segs: Seq<ElfSegment>) -> bool {
    exists|js: Seq<int>|
        #[trigger] segments_from_headers(
            d,
            elf_phoff(d),
            elf_phentsize(d),
            elf_phnum(d) as int,
            js,
            segs,
        )
}

proof fn lemma_parsed_elf_headers(d: Seq<u8>, m: ElfModel)
    requires
        spec_parse_elf(d) == Ok::<ElfModel, ElfError>(m),
    ensures
        segments_are_load_headers(d, m.segments),
{
    let js = lemma_load_headers_witness(d);
    assert(segments_from_headers(
        d,
        elf_phoff(d),
        elf_phentsize(d),
        elf_phnum(d) as int,
        js,
        m.segments,
    ));
}

/// The segments of a parsed ELF file are exactly its `PT_LOAD` program headers with a
/// non-empty memory image, in the order of the program header table: each segment was read
/// from such a header, no header gives two segments, and no such header is left out.
pub proof fn lemma_parse_elf_load_headers(d: Seq<u8>)
    ensures
        spec_parse_elf(d) matches Ok(m) ==> segments_are_load_headers(d, m.segments),
{
    if let Ok(m) = spec_parse_elf(d) {
        lemma_parsed_elf_headers(d, m);
    }
}

/// Parses the header and the program headers of an ELF64 file.
pub fn parse_elf(data: &[u8]) -> (res: Result<ElfInfo, ElfError>)
    ensures
        match res {
            Ok(info) => spec_parse_elf(data@) == Ok::<ElfModel, ElfError>(info@),
            Err(e) => spec_parse_elf(data@) == Err::<ElfModel, ElfError>(e),
        },
        res matches Ok(info) ==> segments_in_file(data@, info@.segments),
        res matches Ok(info) ==> segments_are_load_headers(data@, info@.segments),
{
    let len = data.len();
    if len < 64 {
        return Err(ElfError::TooSmall);
    }
    if data[0] != 0x7f || data[1] != 0x45 || data[2] != 0x4c || data[3] != 0x46 {
        proof {
            assert(data@.subrange(0, 4)[0] == data@[0]);
            assert(data@.subrange(0, 4)[1] == data@[1]);
            assert(data@.subrange(0, 4)[2] == data@[2]);
            assert(data@.subrange(0, 4)[3] == data@[3]);
        }
        return Err(ElfError::BadMagic(data[0], data[1], data[2], data[3]));
    }
    assert(data@.subrange(0, 4) =~= elf_magic());
    if data[4] != ELFCLASS64 {
        return Err(ElfError::NotElf64);
    }
    if data[5] != ELFDATA2LSB {
        return Err(ElfError::NotLittleEndian);
    }
    let e_type = read_u16_le(data, 16);
    let e_machine = read_u16_le(data, 18);
    let e_entry = read_u64_le(data, 24);
    let e_phoff = read_u64_le(data, 32);
    let e_phnum = read_u16_le(data, 56);
    let e_phentsize = read_u16_le(data, 54);

    if e_type != ET_EXEC && e_type != ET_DYN {
        return Err(ElfError::NotExecutable(e_type));
    }
    if e_machine != EM_X86_64 {
        return Err(ElfError::NotX86_64(e_machine));
    }
    if (e_phentsize as usize) < PHDR_MIN_SIZE {
        return Err(ElfError::ProgramHeaderTooSmall);
    }

    let ghost d = data@;
    let ghost phoff = e_phoff as nat;
    let ghost phentsize = e_phentsize as nat;
    let ghost phnum = e_phnum as nat;
    let mut segments: Vec<ElfSegment> = Vec::new();
    let mut i: u16 = 0;
    let mut off: u128 = e_phoff as u128;
    while i < e_phnum
        invariant
            d == data@,
            len == d.len(),
            i <= e_phnum,
            phoff == e_phoff,
            phentsize == e_phentsize,
            phnum == e_phnum,
            off == phoff + i * phentsize,
            spec_parse_elf(d) == (match scan_phdrs(d, phoff, phentsize, i as nat, phnum, segments@) {
                Err(e) => Err(e),
                Ok(segs) => if segs.len() == 0 {
                    Err(ElfError::NoLoadSegments)
                } else {
                    Ok(ElfModel { e_type: e_type, e_entry: e_entry, segments: segs })
                },
            }),
        decreases e_phnum - i,
    {
        proof {
            assert(i * phentsize <= 0xffff * 0xffff) by (nonlinear_arith)
                requires
                    i <= 0xffff,
                    phentsize <= 0xffff,
            ;
        }
        if off + 56 > len as u128 {
            return Err(ElfError::ProgramHeaderOutOfFile(i as usize));
        }
        let o = off as usize;
        let p_type = read_u32_le(data, o);
        let p_flags = read_u32_le(data, o + 4);
        let p_offset = read_u64_le(data, o + 8);
        let p_vaddr = read_u64_le(data, o + 16);
        let p_filesz = read_u64_le(data, o + 32);
        let p_memsz = read_u64_le(data, o + 40);
        let seg = ElfSegment { p_flags, p_offset, p_vaddr, p_filesz, p_memsz };
        assert(seg == phdr_segment(d, o as int));
        if p_type == PT_LOAD && p_memsz != 0 {
            if p_offset as u128 + p_filesz as u128 > len as u128 {
                return Err(ElfError::SegmentOutOfFile(i as usize));
            }
            segments.push(seg);
        }
        proof {
            assert((i + 1) * phentsize == i * phentsize + phentsize) by (nonlinear_arith);
        }
        off = off + e_phentsize as u128;
        i = i + 1;
    }
    if segments.len() == 0 {
        return Err(ElfError::NoLoadSegments);
    }
    proof {
        lemma_parsed_elf_in_file(d);
    }
    let info = ElfInfo { e_type, e_entry, segments };
    proof {
        assert(spec_parse_elf(data@) == Ok::<ElfModel, ElfError>(info@));
        lemma_parsed_elf_headers(data@, info@);
    }
    Ok(info)
}

} // verus!
