//! The ABO bundle: building one from an ELF executable and a manifest, and reading one back.
use vstd::prelude::*;
use crate::bytes::{append_bytes, le_at, le_bytes, push_le, read_u16_le, read_u32_le, read_u64_le};
use crate::elf::{ElfInfo, ElfModel, ElfSegment, ET_DYN, PF_W, PF_X};
use crate::manifest::{spec_serialize, Manifest, ManifestModel};

verus! {

pub const ABO_VERSION_MAJ: u16 = 0;
pub const ABO_VERSION_MIN: u16 = 0;
pub const ABO_HEADER_SIZE: usize = 64;
pub const ABO_SEGMENT_SIZE: usize = 32;
pub const ABO_FLAG_NATIVE: u32 = 1;
pub const ABO_FLAG_WASM: u32 = 2;
pub const ABO_SEG_R: u32 = 1;
pub const ABO_SEG_W: u32 = 2;
pub const ABO_SEG_X: u32 = 4;

/// Where the runtime loads a position-independent executable; the kernel must agree.
pub const PIE_LOAD_BASE: u64 = 0x0040_0000;

/// The first four bytes of every bundle: `"ABO\0"`.
pub open spec fn abo_magic() -> Seq<u8> {
    seq![0x41u8, 0x42u8, 0x4fu8, 0x00u8]
}

/// `x + y` modulo `2^64`.
pub open spec fn wrap_add64(x: u64, y: u64) -> u64 {
    ((x + y) % 0x1_0000_0000_0000_0000) as u64
}

/// The amount added to every address of an executable of type `e_type`.
pub open spec fn load_bias(e_type: u16) -> u64 {
    if e_type == ET_DYN {
        PIE_LOAD_BASE
    } else {
        0
    }
}

/// A bundle segment is always readable; writable and executable as the ELF segment is.
pub open spec fn abo_flags(p_flags: u32) -> u32 {
    ABO_SEG_R | (if p_flags & PF_W != 0 {
        ABO_SEG_W
    } else {
        0
    }) | (if p_flags & PF_X != 0 {
        ABO_SEG_X
    } else {
        0
    })
}

/// Every bundle segment is readable, and writable or executable exactly where its ELF
/// segment is.
pub proof fn lemma_abo_flags(p_flags: u32)
    ensures
        abo_flags(p_flags) & ABO_SEG_R != 0,
        (abo_flags(p_flags) & ABO_SEG_W != 0) == (p_flags & PF_W != 0),
        (abo_flags(p_flags) & ABO_SEG_X != 0) == (p_flags & PF_X != 0),
        abo_flags(p_flags) <= (ABO_SEG_R | ABO_SEG_W | ABO_SEG_X),
{
    let f = abo_flags(p_flags);
    let w = p_flags & 2 != 0;
    let x = p_flags & 1 != 0;
    assert(f == 1u32 | (if w { 2u32 } else { 0u32 }) | (if x { 4u32 } else { 0u32 }));
    assert(f & 1 != 0 && ((f & 2 != 0) == w) && ((f & 4 != 0) == x) && f <= 7)
        by (bit_vector)
        requires
            f == 1u32 | (if w { 2u32 } else { 0u32 }) | (if x { 4u32 } else { 0u32 }),
    ;
    assert(ABO_SEG_R | ABO_SEG_W | ABO_SEG_X == 7) by (bit_vector);
}

pub open spec fn is_exec(seg: ElfSegment) -> bool {
    seg.p_flags & PF_X != 0
}

/// The index of the first executable segment.
pub open spec fn first_exec(segs: Seq<ElfSegment>) -> Option<int>
    decreases segs.len(),
{
    if segs.len() == 0 {
        None
    } else {
        match first_exec(segs.drop_last()) {
            Some(j) => Some(j),
            None => if is_exec(segs.last()) {
                Some(segs.len() - 1)
            } else {
                None
            },
        }
    }
}

/// One segment of a bundle, with the bytes it carries.
#[derive(Debug)]
pub struct AboSegment {
    pub vaddr: u64,
    pub mem_size: u64,
    pub file_off: u64,
    pub file_size: u32,
    pub flags: u32,
    pub data: Vec<u8>,
}

/// The mathematical value of an [`AboSegment`].
pub ghost struct AboSegmentModel {
    pub vaddr: u64,
    pub mem_size: u64,
    pub file_off: u64,
    pub file_size: u32,
    pub flags: u32,
    pub data: Seq<u8>,
}

impl View for AboSegment {
    type V = AboSegmentModel;

    open spec fn view(&self) -> AboSegmentModel {
        AboSegmentModel {
            vaddr: self.vaddr,
            mem_size: self.mem_size,
            file_off: self.file_off,
            file_size: self.file_size,
            flags: self.flags,
            data: self.data@,
        }
    }
}

pub open spec fn abo_segments_view(v: Seq<AboSegment>) -> Seq<AboSegmentModel> {
    v.map_values(|s: AboSegment| s@)
}

/// The total size of the file images of `segs`.
pub open spec fn sum_filesz(segs: Seq<ElfSegment>) -> nat
    decreases segs.len(),
{
    if segs.len() == 0 {
        0
    } else {
        sum_filesz(segs.drop_last()) + segs.last().p_filesz as nat
    }
}

/// The bundle segment made of the ELF segment `seg` of `d`, whose bytes go at `file_off`.
pub open spec fn to_abo_segment(
    d: Seq<u8>,
    seg: ElfSegment,
    bias: u64,
    file_off: nat,
) -> AboSegmentModel {
    AboSegmentModel {
        vaddr: wrap_add64(seg.p_vaddr, bias),
        mem_size: seg.p_memsz,
        file_off: file_off as u64,
        file_size: seg.p_filesz as u32,
        flags: abo_flags(seg.p_flags),
        data: d.subrange(seg.p_offset as int, seg.p_offset + seg.p_filesz),
    }
}

/// The bundle segments of `segs`, whose bytes follow each other from `data_off` on.
pub open spec fn abo_segments(
    d: Seq<u8>,
    segs: Seq<ElfSegment>,
    bias: u64,
    data_off: nat,
) -> Seq<AboSegmentModel>
    decreases segs.len(),
{
    if segs.len() == 0 {
        Seq::empty()
    } else {
        abo_segments(d, segs.drop_last(), bias, data_off).push(
            to_abo_segment(d, segs.last(), bias, data_off + sum_filesz(segs.drop_last())),
        )
    }
}

/// The 32-byte segment table entry of `s`.
pub open spec fn entry_bytes(s: AboSegmentModel) -> Seq<u8> {
    le_bytes(s.vaddr as nat, 8) + le_bytes(s.mem_size as nat, 8) + le_bytes(s.file_off as nat, 8)
        + le_bytes(s.file_size as nat, 4) + le_bytes(s.flags as nat, 4)
}

pub open spec fn table_bytes(ms: Seq<AboSegmentModel>) -> Seq<u8>
    decreases ms.len(),
{
    if ms.len() == 0 {
        Seq::empty()
    } else {
        table_bytes(ms.drop_last()) + entry_bytes(ms.last())
    }
}

pub open spec fn data_bytes(ms: Seq<AboSegmentModel>) -> Seq<u8>
    decreases ms.len(),
{
    if ms.len() == 0 {
        Seq::empty()
    } else {
        data_bytes(ms.drop_last()) + ms.last().data
    }
}

/// The 64-byte bundle header. Each 32-bit field holds the low 32 bits of its value.
#[verifier::opaque]
pub open spec fn header_bytes(
    uuid: Seq<u8>,
    manifest_size: nat,
    segments_off: nat,
    n_segs: nat,
    entry_off: nat,
) -> Seq<u8> {
    abo_magic() + le_bytes(ABO_VERSION_MAJ as nat, 2) + le_bytes(ABO_VERSION_MIN as nat, 2) + uuid
        + le_bytes(ABO_FLAG_NATIVE as nat, 4) + le_bytes(ABO_HEADER_SIZE as nat, 4) + le_bytes(
        manifest_size,
        4,
    ) + le_bytes(segments_off, 4) + le_bytes(n_segs, 4) + le_bytes(entry_off, 4) + Seq::new(
        16,
        |i: int| 0u8,
    )
}

/// Why an ELF executable cannot be made into a bundle.
#[derive(Debug, PartialEq, Eq)]
pub enum AboError {
    EntryNull,
    NoExecSegment,
    /// The entry point and the address of the first executable segment, which lies above it.
    EntryBeforeExec(u64, u64),
}

/// The layout of a bundle: where its segment table and its segment data start.
pub open spec fn table_off(m: ManifestModel) -> nat {
    ABO_HEADER_SIZE as nat + spec_serialize(m).len()
}

pub open spec fn data_off(e: ElfModel, m: ManifestModel) -> nat {
    table_off(m) + (ABO_SEGMENT_SIZE as nat) * e.segments.len()
}

/// The bundle segments of the executable `e` read from `d`.
pub open spec fn spec_abo_segments(d: Seq<u8>, e: ElfModel, m: ManifestModel) -> Seq<
    AboSegmentModel,
> {
    abo_segments(d, e.segments, load_bias(e.e_type), data_off(e, m))
}

/// Why the executable `e` cannot be made into a bundle, if it cannot: a null entry point
/// (after the load bias), no executable segment, or an entry point below the first
/// executable segment.
pub open spec fn spec_build_error(e: ElfModel) -> Option<AboError> {
    let bias = load_bias(e.e_type);
    let entry = wrap_add64(e.e_entry, bias);
    if entry == 0 {
        Some(AboError::EntryNull)
    } else {
        match first_exec(e.segments) {
            None => Some(AboError::NoExecSegment),
            Some(idx) => {
                let sv = wrap_add64(e.segments[idx].p_vaddr, bias);
                if entry < sv {
                    Some(AboError::EntryBeforeExec(entry, sv))
                } else {
                    None
                }
            },
        }
    }
}

/// The offset of the entry point into the first executable segment.
pub open spec fn abo_entry_offset(e: ElfModel) -> int {
    let bias = load_bias(e.e_type);
    match first_exec(e.segments) {
        Some(idx) => wrap_add64(e.e_entry, bias) - wrap_add64(e.segments[idx].p_vaddr, bias),
        None => 0,
    }
}

/// The bundle of the executable `e` (read from `d`) with the manifest `m` and the id `uuid`.
pub open spec fn spec_build_abo(d: Seq<u8>, e: ElfModel, m: ManifestModel, uuid: Seq<u8>) -> Result<
    Seq<u8>,
    AboError,
> {
    match spec_build_error(e) {
        Some(err) => Err(err),
        None => {
            let mbytes = spec_serialize(m);
            let ms = spec_abo_segments(d, e, m);
            Ok(
                header_bytes(
                    uuid,
                    mbytes.len(),
                    table_off(m),
                    e.segments.len(),
                    abo_entry_offset(e) as nat,
                ) + mbytes + table_bytes(ms) + data_bytes(ms),
            )
        },
    }
}

/// Every segment's file bytes lie in `d`.
pub open spec fn segments_within(d: Seq<u8>, segs: Seq<ElfSegment>) -> bool {
    forall|j: int| 0 <= j < segs.len() ==> #[trigger] segs[j].p_offset + segs[j].p_filesz <= d.len()
}

/// A bundle can be written: every segment has fewer than `2^32` bytes in the file (the width
/// of the table's size field), and the bundle fits in memory.
pub open spec fn image_fits(e: ElfModel, m: ManifestModel) -> bool {
    &&& forall|j: int| 0 <= j < e.segments.len() ==> #[trigger] e.segments[j].p_filesz <= u32::MAX
    &&& data_off(e, m) + sum_filesz(e.segments) <= usize::MAX
}

/// What `build_abo` needs of its inputs: every segment's file bytes lie in `d`, and where a
/// bundle is made, it can be written.
pub open spec fn build_admits(d: Seq<u8>, e: ElfModel, m: ManifestModel) -> bool {
    &&& segments_within(d, e.segments)
    &&& spec_build_error(e) is None ==> image_fits(e, m)
}

pub proof fn lemma_sum_prefix(segs: Seq<ElfSegment>, i: int)
    requires
        0 <= i <= segs.len(),
    ensures
        sum_filesz(segs.take(i)) <= sum_filesz(segs),
    decreases segs.len(),
{
    if i == segs.len() {
        assert(segs.take(i) =~= segs);
    } else {
        assert(segs.drop_last().take(i) =~= segs.take(i));
        lemma_sum_prefix(segs.drop_last(), i);
    }
}

pub proof fn lemma_first_exec_bound(segs: Seq<ElfSegment>)
    ensures
        first_exec(segs) matches Some(j) ==> 0 <= j < segs.len() && is_exec(segs[j]),
    decreases segs.len(),
{
    if segs.len() > 0 {
        lemma_first_exec_bound(segs.drop_last());
    }
}

pub proof fn lemma_abo_segments_len(d: Seq<u8>, segs: Seq<ElfSegment>, bias: u64, data_off: nat)
    ensures
        abo_segments(d, segs, bias, data_off).len() == segs.len(),
    decreases segs.len(),
{
    if segs.len() > 0 {
        lemma_abo_segments_len(d, segs.drop_last(), bias, data_off);
    }
}

/// The bundle segment at index `j` is made of the ELF segment at index `j`.
pub proof fn lemma_abo_segments_index(
    d: Seq<u8>,
    segs: Seq<ElfSegment>,
    bias: u64,
    data_off: nat,
    j: int,
)
    requires
        0 <= j < segs.len(),
    ensures
        abo_segments(d, segs, bias, data_off).len() == segs.len(),
        abo_segments(d, segs, bias, data_off)[j] == to_abo_segment(
            d,
            segs[j],
            bias,
            data_off + sum_filesz(segs.take(j)),
        ),
    decreases segs.len(),
{
    lemma_abo_segments_len(d, segs, bias, data_off);
    lemma_abo_segments_len(d, segs.drop_last(), bias, data_off);
    if j == segs.len() - 1 {
        assert(segs.take(j) =~= segs.drop_last());
    } else {
        lemma_abo_segments_index(d, segs.drop_last(), bias, data_off, j);
        assert(segs.drop_last().take(j) =~= segs.take(j));
    }
}

proof fn lemma_wrap_add(x: u64, y: u64)
    ensures
        vstd::wrapping::u64_specs::wrapping_add(x, y) == wrap_add64(x, y),
{
}

/// The bundle segments of `elf` in order, each with its bytes, and the index of the first
/// executable one.
fn collect_abo_segments(elf_data: &[u8], elf: &ElfInfo, bias: u64, data_off: usize) -> (res: Vec<
    AboSegment,
>)
    requires
        forall|j: int|
            0 <= j < elf@.segments.len() ==> #[trigger] elf@.segments[j].p_offset
                + elf@.segments[j].p_filesz <= elf_data@.len(),
        data_off + sum_filesz(elf@.segments) <= usize::MAX,
    ensures
        abo_segments_view(res@) == abo_segments(elf_data@, elf@.segments, bias, data_off as nat),
{
    let ghost d = elf_data@;
    let ghost segs = elf@.segments;
    let dlen = elf_data.len();
    let n = elf.segments.len();
    let mut abo_segs: Vec<AboSegment> = Vec::new();
    let mut cursor: u64 = data_off as u64;
    assert(segs.take(0) =~= Seq::<ElfSegment>::empty());
    assert(abo_segments_view(abo_segs@) =~= Seq::<AboSegmentModel>::empty());
    for i in 0..n
        invariant
            d == elf_data@,
            dlen == d.len(),
            segs == elf@.segments,
            n == segs.len(),
            forall|j: int|
                0 <= j < segs.len() ==> #[trigger] segs[j].p_offset + segs[j].p_filesz <= d.len(),
            data_off + sum_filesz(segs) <= usize::MAX,
            abo_segments_view(abo_segs@) == abo_segments(
                d,
                segs.take(i as int),
                bias,
                data_off as nat,
            ),
            cursor == data_off + sum_filesz(segs.take(i as int)),
    {
        let seg = elf.segments[i];
        assert(segs[i as int] == seg);
        let vaddr = seg.p_vaddr.wrapping_add(bias);
        proof {
            lemma_wrap_add(seg.p_vaddr, bias);
        }
        let w: u32 = if seg.p_flags & PF_W != 0 {
            ABO_SEG_W
        } else {
            0
        };
        let x: u32 = if seg.p_flags & PF_X != 0 {
            ABO_SEG_X
        } else {
            0
        };
        let flags = ABO_SEG_R | w | x;
        assert(seg.p_offset + seg.p_filesz <= dlen);
        let start = seg.p_offset as usize;
        let end = start + seg.p_filesz as usize;
        let data = vstd::slice::slice_to_vec(vstd::slice::slice_subrange(elf_data, start, end));
        proof {
            lemma_sum_prefix(segs, i + 1);
            assert(segs.take(i + 1).drop_last() =~= segs.take(i as int));
        }
        let ghost before = abo_segments_view(abo_segs@);
        abo_segs.push(
            AboSegment {
                vaddr,
                mem_size: seg.p_memsz,
                file_off: cursor,
                file_size: seg.p_filesz as u32,
                flags,
                data,
            },
        );
        assert(abo_segments_view(abo_segs@) =~= before.push(
            to_abo_segment(d, seg, bias, cursor as nat),
        ));
        cursor = cursor + seg.p_filesz;
    }
    assert(segs.take(n as int) =~= segs);
    abo_segs
}

/// Appends the 64-byte bundle header.
fn push_header(
    out: &mut Vec<u8>,
    uuid: &[u8; 16],
    manifest_size: usize,
    segments_off: usize,
    n_segs: usize,
    entry_off: u64,
)
    ensures
        final(out)@ == old(out)@ + header_bytes(
            uuid@,
            manifest_size as nat,
            segments_off as nat,
            n_segs as nat,
            entry_off as nat,
        ),
{
    reveal(header_bytes);
    let ghost start = out@;
    out.push(0x41);
    out.push(0x42);
    out.push(0x4f);
    out.push(0x00);
    assert(out@ =~= start + abo_magic());
    push_le(out, ABO_VERSION_MAJ as u64, 2);
    push_le(out, ABO_VERSION_MIN as u64, 2);
    append_bytes(out, uuid.as_slice());
    push_le(out, ABO_FLAG_NATIVE as u64, 4);
    push_le(out, ABO_HEADER_SIZE as u64, 4);
    push_le(out, manifest_size as u64, 4);
    push_le(out, segments_off as u64, 4);
    push_le(out, n_segs as u64, 4);
    push_le(out, entry_off, 4);
    let ghost h48 = out@;
    assert(out@ =~= h48 + Seq::new(0, |i: int| 0u8));
    for k in 0..16
        invariant
            out@ == h48 + Seq::new(k as nat, |i: int| 0u8),
    {
        out.push(0);
        assert(out@ =~= h48 + Seq::new((k + 1) as nat, |i: int| 0u8));
    }
    assert(out@ =~= start + header_bytes(
        uuid@,
        manifest_size as nat,
        segments_off as nat,
        n_segs as nat,
        entry_off as nat,
    ));
}

/// Appends the segment table.
fn push_table(out: &mut Vec<u8>, abo_segs: &Vec<AboSegment>)
    ensures
        final(out)@ == old(out)@ + table_bytes(abo_segments_view(abo_segs@)),
{
    let ghost ms = abo_segments_view(abo_segs@);
    let n = abo_segs.len();
    assert(ms.take(0) =~= Seq::<AboSegmentModel>::empty());
    assert(out@ =~= old(out)@ + table_bytes(ms.take(0)));
    for i in 0..n
        invariant
            n == abo_segs@.len(),
            ms == abo_segments_view(abo_segs@),
            out@ == old(out)@ + table_bytes(ms.take(i as int)),
    {
        let s = &abo_segs[i];
        assert(s@ == ms[i as int]);
        push_le(out, s.vaddr, 8);
        push_le(out, s.mem_size, 8);
        push_le(out, s.file_off, 8);
        push_le(out, s.file_size as u64, 4);
        push_le(out, s.flags as u64, 4);
        assert(ms.take(i + 1).drop_last() =~= ms.take(i as int));
        assert(out@ =~= old(out)@ + table_bytes(ms.take(i + 1)));
    }
    assert(ms.take(n as int) =~= ms);
}

/// Appends the bytes of every segment, in order.
fn push_data(out: &mut Vec<u8>, abo_segs: &Vec<AboSegment>)
    ensures
        final(out)@ == old(out)@ + data_bytes(abo_segments_view(abo_segs@)),
{
    let ghost ms = abo_segments_view(abo_segs@);
    let n = abo_segs.len();
    assert(ms.take(0) =~= Seq::<AboSegmentModel>::empty());
    assert(out@ =~= old(out)@ + data_bytes(ms.take(0)));
    for i in 0..n
        invariant
            n == abo_segs@.len(),
            ms == abo_segments_view(abo_segs@),
            out@ == old(out)@ + data_bytes(ms.take(i as int)),
    {
        assert(abo_segs@[i as int]@ == ms[i as int]);
        append_bytes(out, abo_segs[i].data.as_slice());
        assert(ms.take(i + 1).drop_last() =~= ms.take(i as int));
        assert(out@ =~= old(out)@ + data_bytes(ms.take(i + 1)));
    }
    assert(ms.take(n as int) =~= ms);
}

/// The index of the first executable segment.
fn find_first_exec(segs: &Vec<ElfSegment>) -> (r: Option<usize>)
    ensures
        match r {
            Some(j) => first_exec(segs@) == Some(j as int),
            None => first_exec(segs@) is None,
        },
{
    let n = segs.len();
    let mut first: Option<usize> = None;
    assert(segs@.take(0) =~= Seq::<ElfSegment>::empty());
    for i in 0..n
        invariant
            n == segs@.len(),
            match first {
                Some(j) => first_exec(segs@.take(i as int)) == Some(j as int),
                None => first_exec(segs@.take(i as int)) is None,
            },
    {
        assert(segs@.take(i + 1).drop_last() =~= segs@.take(i as int));
        if segs[i].p_flags & PF_X != 0 && first.is_none() {
            first = Some(i);
        }
    }
    assert(segs@.take(n as int) =~= segs@);
    first
}

/// The offset of the entry point into the first executable segment, or why `elf` cannot be
/// made into a bundle.
pub fn entry_offset(elf: &ElfInfo) -> (res: Result<u64, AboError>)
    ensures
        match spec_build_error(elf@) {
            Some(err) => res == Err::<u64, AboError>(err),
            None => res == Ok::<u64, AboError>(abo_entry_offset(elf@) as u64),
        },
{
    let bias: u64 = if elf.e_type == ET_DYN {
        PIE_LOAD_BASE
    } else {
        0
    };
    let entry_vaddr = elf.e_entry.wrapping_add(bias);
    proof {
        lemma_wrap_add(elf.e_entry, bias);
    }
    if entry_vaddr == 0 {
        return Err(AboError::EntryNull);
    }
    let idx = match find_first_exec(&elf.segments) {
        Some(j) => j,
        None => {
            return Err(AboError::NoExecSegment);
        },
    };
    proof {
        lemma_first_exec_bound(elf@.segments);
        lemma_wrap_add(elf@.segments[idx as int].p_vaddr, bias);
    }
    let seg_vaddr = elf.segments[idx].p_vaddr.wrapping_add(bias);
    if entry_vaddr < seg_vaddr {
        return Err(AboError::EntryBeforeExec(entry_vaddr, seg_vaddr));
    }
    Ok(entry_vaddr - seg_vaddr)
}

/// Builds a bundle of the executable `elf`, read from `elf_data`, with the manifest and the
/// id given.
///
/// The bundle is the header, the manifest, the segment table and the segments' bytes, in this
/// order. A position-independent executable is placed at `PIE_LOAD_BASE`; the header records
/// the entry point as an offset into the first executable segment.
pub fn build_abo(elf_data: &[u8], elf: &ElfInfo, manifest: &Manifest, uuid: [u8; 16]) -> (res:
    Result<Vec<u8>, AboError>)
    requires
        build_admits(elf_data@, elf@, manifest@),
    ensures
        match res {
            Ok(b) => spec_build_abo(elf_data@, elf@, manifest@, uuid@) == Ok::<
                Seq<u8>,
                AboError,
            >(b@),
            Err(e) => spec_build_abo(elf_data@, elf@, manifest@, uuid@) == Err::<
                Seq<u8>,
                AboError,
            >(e),
        },
{
    let ghost d = elf_data@;
    let ghost e = elf@;
    let entry_off = match entry_offset(elf) {
        Ok(off) => off,
        Err(err) => {
            return Err(err);
        },
    };
    let bias: u64 = if elf.e_type == ET_DYN {
        PIE_LOAD_BASE
    } else {
        0
    };
    let manifest_bytes = manifest.serialize();
    let n = elf.segments.len();
    let segments_tab_off = ABO_HEADER_SIZE + manifest_bytes.len();
    let segments_data_off = segments_tab_off + n * ABO_SEGMENT_SIZE;
    let ghost ms = spec_abo_segments(d, e, manifest@);
    let abo_segs = collect_abo_segments(elf_data, elf, bias, segments_data_off);
    assert(abo_segments_view(abo_segs@) == ms);

    let mut out: Vec<u8> = Vec::new();
    push_header(&mut out, &uuid, manifest_bytes.len(), segments_tab_off, n, entry_off);
    append_bytes(&mut out, manifest_bytes.as_slice());
    push_table(&mut out, &abo_segs);
    push_data(&mut out, &abo_segs);
    assert(out@ =~= header_bytes(
        uuid@,
        manifest_bytes@.len(),
        segments_tab_off as nat,
        n as nat,
        entry_off as nat,
    ) + manifest_bytes@ + table_bytes(ms) + data_bytes(ms));
    Ok(out)
}

/// The header fields of a bundle.
#[derive(Debug)]
pub struct AboHeader {
    pub version_major: u16,
    pub version_minor: u16,
    pub uuid: [u8; 16],
    pub flags: u32,
    pub manifest_off: u32,
    pub manifest_size: u32,
    pub segments_off: u32,
    pub segments_count: u32,
    pub entry_off: u32,
}

/// The mathematical value of an [`AboHeader`].
pub ghost struct AboHeaderModel {
    pub version_major: u16,
    pub version_minor: u16,
    pub uuid: Seq<u8>,
    pub flags: u32,
    pub manifest_off: u32,
    pub manifest_size: u32,
    pub segments_off: u32,
    pub segments_count: u32,
    pub entry_off: u32,
}

impl View for AboHeader {
    type V = AboHeaderModel;

    open spec fn view(&self) -> AboHeaderModel {
        AboHeaderModel {
            version_major: self.version_major,
            version_minor: self.version_minor,
            uuid: self.uuid@,
            flags: self.flags,
            manifest_off: self.manifest_off,
            manifest_size: self.manifest_size,
            segments_off: self.segments_off,
            segments_count: self.segments_count,
            entry_off: self.entry_off,
        }
    }
}

/// One entry of a bundle's segment table.
#[derive(Clone, Copy, Debug, PartialEq, Eq)]
pub struct AboTableEntry {
    pub vaddr: u64,
    pub mem_size: u64,
    pub file_off: u64,
    pub file_size: u32,
    pub flags: u32,
}

/// Why bytes are not a bundle that can be read.
#[derive(Debug, PartialEq, Eq)]
pub enum AboFormatError {
    /// Fewer bytes than a header.
    TooSmall,
    /// The first four bytes, which are not `"ABO\0"`.
    BadMagic(u8, u8, u8, u8),
    /// A major version that this reader does not know.
    UnsupportedVersion(u16),
}

/// The header fields of the 64 bytes that start `d`.
pub open spec fn spec_read_header(d: Seq<u8>) -> AboHeaderModel {
    AboHeaderModel {
        version_major: le_at(d, 4, 2) as u16,
        version_minor: le_at(d, 6, 2) as u16,
        uuid: d.subrange(8, 24),
        flags: le_at(d, 24, 4) as u32,
        manifest_off: le_at(d, 28, 4) as u32,
        manifest_size: le_at(d, 32, 4) as u32,
        segments_off: le_at(d, 36, 4) as u32,
        segments_count: le_at(d, 40, 4) as u32,
        entry_off: le_at(d, 44, 4) as u32,
    }
}

/// The header of a bundle, or why `d` has none.
pub open spec fn spec_parse_abo_header(d: Seq<u8>) -> Result<AboHeaderModel, AboFormatError> {
    if d.len() < ABO_HEADER_SIZE {
        Err(AboFormatError::TooSmall)
    } else if d.subrange(0, 4) != abo_magic() {
        Err(AboFormatError::BadMagic(d[0], d[1], d[2], d[3]))
    } else {
        Ok(spec_read_header(d))
    }
}

/// Whether `d` is a bundle of a version this reader knows.
pub open spec fn spec_check_abo(d: Seq<u8>) -> Result<(), AboFormatError> {
    match spec_parse_abo_header(d) {
        Err(e) => Err(e),
        Ok(h) => if h.version_major != ABO_VERSION_MAJ {
            Err(AboFormatError::UnsupportedVersion(h.version_major))
        } else {
            Ok(())
        },
    }
}

/// Reads the header of a bundle; its version is not checked.
pub fn parse_abo_header(data: &[u8]) -> (res: Result<AboHeader, AboFormatError>)
    ensures
        match res {
            Ok(h) => spec_parse_abo_header(data@) == Ok::<AboHeaderModel, AboFormatError>(h@),
            Err(e) => spec_parse_abo_header(data@) == Err::<AboHeaderModel, AboFormatError>(e),
        },
{
    let len = data.len();
    if len < ABO_HEADER_SIZE {
        return Err(AboFormatError::TooSmall);
    }
    if data[0] != 0x41 || data[1] != 0x42 || data[2] != 0x4f || data[3] != 0x00 {
        proof {
            assert(data@.subrange(0, 4)[0] == data@[0]);
            assert(data@.subrange(0, 4)[1] == data@[1]);
            assert(data@.subrange(0, 4)[2] == data@[2]);
            assert(data@.subrange(0, 4)[3] == data@[3]);
        }
        return Err(AboFormatError::BadMagic(data[0], data[1], data[2], data[3]));
    }
    assert(data@.subrange(0, 4) =~= abo_magic());
    let uuid: [u8; 16] = [
        data[8],
        data[9],
        data[10],
        data[11],
        data[12],
        data[13],
        data[14],
        data[15],
        data[16],
        data[17],
        data[18],
        data[19],
        data[20],
        data[21],
        data[22],
        data[23],
    ];
    assert(uuid@ =~= data@.subrange(8, 24));
    Ok(
        AboHeader {
            version_major: read_u16_le(data, 4),
            version_minor: read_u16_le(data, 6),
            uuid,
            flags: read_u32_le(data, 24),
            manifest_off: read_u32_le(data, 28),
            manifest_size: read_u32_le(data, 32),
            segments_off: read_u32_le(data, 36),
            segments_count: read_u32_le(data, 40),
            entry_off: read_u32_le(data, 44),
        },
    )
}

/// Checks that `data` starts with a bundle header of a version this reader knows.
pub fn check_abo(data: &[u8]) -> (res: Result<(), AboFormatError>)
    ensures
        res == spec_check_abo(data@),
{
    match parse_abo_header(data) {
        Err(e) => Err(e),
        Ok(h) => if h.version_major != ABO_VERSION_MAJ {
            Err(AboFormatError::UnsupportedVersion(h.version_major))
        } else {
            Ok(())
        },
    }
}

/// The manifest bytes that the header `h` points at, where there are any and they lie in `d`.
pub open spec fn spec_abo_manifest(d: Seq<u8>, h: AboHeaderModel) -> Option<Seq<u8>> {
    if h.manifest_size > 0 && h.manifest_off + h.manifest_size <= d.len() {
        Some(d.subrange(h.manifest_off as int, h.manifest_off + h.manifest_size))
    } else {
        None
    }
}

/// The manifest bytes of a bundle with the header `h`, where there are any and they lie in
/// `data`.
pub fn abo_manifest<'a>(data: &'a [u8], h: &AboHeader) -> (res: Option<&'a [u8]>)
    ensures
        match res {
            Some(m) => spec_abo_manifest(data@, h@) == Some(m@),
            None => spec_abo_manifest(data@, h@) is None,
        },
{
    let off = h.manifest_off as u64;
    let size = h.manifest_size as u64;
    if size > 0 && off + size <= data.len() as u64 {
        Some(vstd::slice::slice_subrange(data, off as usize, (off + size) as usize))
    } else {
        None
    }
}

/// The segment table entry whose 32 bytes start at `off`.
pub open spec fn entry_at(d: Seq<u8>, off: int) -> AboTableEntry {
    AboTableEntry {
        vaddr: le_at(d, off, 8) as u64,
        mem_size: le_at(d, off + 8, 8) as u64,
        file_off: le_at(d, off + 16, 8) as u64,
        file_size: le_at(d, off + 24, 4) as u32,
        flags: le_at(d, off + 28, 4) as u32,
    }
}

/// The table entries `i..count` of a table at `off0`, up to the first one that does not lie
/// within `d`.
pub open spec fn read_table(d: Seq<u8>, off0: nat, i: nat, count: nat, acc: Seq<AboTableEntry>) -> Seq<
    AboTableEntry,
>
    decreases count - i,
{
    if i >= count {
        acc
    } else {
        let off = off0 + i * ABO_SEGMENT_SIZE;
        if off + ABO_SEGMENT_SIZE > d.len() {
            acc
        } else {
            read_table(d, off0, i + 1, count, acc.push(entry_at(d, off as int)))
        }
    }
}

/// The segment table entries of a bundle with the header `h`, as far as they lie in `d`.
pub open spec fn spec_abo_table(d: Seq<u8>, h: AboHeaderModel) -> Seq<AboTableEntry> {
    read_table(d, h.segments_off as nat, 0, h.segments_count as nat, Seq::empty())
}

/// Reads the segment table of a bundle with the header `h`; reading stops at the first entry
/// that does not lie within `data`.
pub fn read_abo_segments(data: &[u8], h: &AboHeader) -> (res: Vec<AboTableEntry>)
    ensures
        res@ == spec_abo_table(data@, h@),
{
    let dlen: usize = data.len();
    let len = dlen as u64;
    let count = h.segments_count;
    let ghost off0 = h.segments_off as nat;
    let mut res: Vec<AboTableEntry> = Vec::new();
    let mut i: u32 = 0;
    let mut off: u64 = h.segments_off as u64;
    while i < count
        invariant
            len == data@.len(),
            dlen == data@.len(),
            count == h.segments_count,
            off0 == h.segments_off,
            i <= count,
            off == off0 + i * 32,
            spec_abo_table(data@, h@) == read_table(data@, off0, i as nat, count as nat, res@),
        decreases count - i,
    {
        proof {
            assert(i * 32 <= 0xffff_ffff * 32) by (nonlinear_arith)
                requires
                    i <= 0xffff_ffff,
            ;
        }
        if off + 32 > len {
            return res;
        }
        assert(off + 32 <= dlen);
        let o = off as usize;
        let entry = AboTableEntry {
            vaddr: read_u64_le(data, o),
            mem_size: read_u64_le(data, o + 8),
            file_off: read_u64_le(data, o + 16),
            file_size: read_u32_le(data, o + 24),
            flags: read_u32_le(data, o + 28),
        };
        assert(entry == entry_at(data@, o as int));
        res.push(entry);
        proof {
            assert((i + 1) * 32 == i * 32 + 32) by (nonlinear_arith);
        }
        off = off + 32;
        i = i + 1;
    }
    res
}

} // verus!
