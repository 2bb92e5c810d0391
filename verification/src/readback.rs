//! What reading a bundle gives back of what building it wrote.
use vstd::prelude::*;
use crate::abo::{
    abo_entry_offset,
    abo_magic, data_bytes, entry_at, entry_bytes, header_bytes, load_bias,
    read_table, spec_abo_manifest, spec_abo_segments, spec_abo_table, spec_build_abo,
    spec_check_abo, spec_parse_abo_header, spec_read_header, table_bytes, table_off,
    AboHeaderModel, AboSegmentModel, AboTableEntry, abo_segments, build_admits, sum_filesz,
    to_abo_segment,
};
use crate::bytes::{le_at, le_bytes, lemma_le_roundtrip, lemma_pow256_values};
use crate::elf::{ElfModel, ElfSegment};
use crate::manifest::{spec_serialize, ManifestModel};

verus! {

/// The header that a bundle of `e` with the manifest `m` and the id `uuid` carries.
pub open spec fn expected_header(e: ElfModel, m: ManifestModel, uuid: Seq<u8>) -> AboHeaderModel {
    AboHeaderModel {
        version_major: 0,
        version_minor: 0,
        uuid: uuid,
        flags: 1,
        manifest_off: 64,
        manifest_size: (spec_serialize(m).len() % 0x1_0000_0000) as u32,
        segments_off: (table_off(m) % 0x1_0000_0000) as u32,
        segments_count: (e.segments.len() % 0x1_0000_0000) as u32,
        entry_off: (abo_entry_offset(e) % 0x1_0000_0000) as u32,
    }
}

/// The table entry that describes a bundle segment.
pub open spec fn table_entry(s: AboSegmentModel) -> AboTableEntry {
    AboTableEntry {
        vaddr: s.vaddr,
        mem_size: s.mem_size,
        file_off: s.file_off,
        file_size: s.file_size,
        flags: s.flags,
    }
}

proof fn lemma_le_field(b: Seq<u8>, off: int, v: nat, k: nat)
    requires
        0 <= off,
        off + k <= b.len(),
        b.subrange(off, off + k) == le_bytes(v, k),
    ensures
        le_at(b, off, k as int) == v % crate::bytes::pow256(k),
{
    lemma_le_roundtrip(v, k);
}

proof fn lemma_le_lens(v: nat)
    ensures
        le_bytes(v, 2).len() == 2,
        le_bytes(v, 4).len() == 4,
        le_bytes(v, 8).len() == 8,
{
    lemma_le_roundtrip(v, 2);
    lemma_le_roundtrip(v, 4);
    lemma_le_roundtrip(v, 8);
}

proof fn lemma_same_prefix(b: Seq<u8>, h: Seq<u8>, x: int, y: int)
    requires
        0 <= x <= y <= h.len() <= b.len(),
        forall|i: int| 0 <= i < h.len() ==> b[i] == h[i],
    ensures
        b.subrange(x, y) == h.subrange(x, y),
{
    assert(b.subrange(x, y) =~= h.subrange(x, y));
}

/// The header of a bundle reads back as it was written.
proof fn lemma_header_readback(
    b: Seq<u8>,
    uuid: Seq<u8>,
    msize: nat,
    toff: nat,
    n: nat,
    eo: nat,
)
    requires
        uuid.len() == 16,
        b.len() >= 64,
        b.subrange(0, 64) == header_bytes(uuid, msize, toff, n, eo),
    ensures
        b.subrange(0, 4) == abo_magic(),
        spec_read_header(b) == (AboHeaderModel {
            version_major: 0,
            version_minor: 0,
            uuid: uuid,
            flags: 1,
            manifest_off: 64,
            manifest_size: (msize % 0x1_0000_0000) as u32,
            segments_off: (toff % 0x1_0000_0000) as u32,
            segments_count: (n % 0x1_0000_0000) as u32,
            entry_off: (eo % 0x1_0000_0000) as u32,
        }),
{
    reveal(header_bytes);
    let h = header_bytes(uuid, msize, toff, n, eo);
    lemma_le_lens(crate::abo::ABO_VERSION_MAJ as nat);
    lemma_le_lens(crate::abo::ABO_VERSION_MIN as nat);
    lemma_le_lens(crate::abo::ABO_FLAG_NATIVE as nat);
    lemma_le_lens(crate::abo::ABO_HEADER_SIZE as nat);
    lemma_le_lens(msize);
    lemma_le_lens(toff);
    lemma_le_lens(n);
    lemma_le_lens(eo);
    lemma_pow256_values();
    assert(h.len() == 64);
    assert forall|i: int| 0 <= i < 64 implies b[i] == h[i] by {
        assert(b.subrange(0, 64)[i] == b[i]);
    }
    assert(h.subrange(0, 4) =~= abo_magic());
    assert(h.subrange(4, 6) =~= le_bytes(crate::abo::ABO_VERSION_MAJ as nat, 2));
    assert(h.subrange(6, 8) =~= le_bytes(crate::abo::ABO_VERSION_MIN as nat, 2));
    assert(h.subrange(8, 24) =~= uuid);
    assert(h.subrange(24, 28) =~= le_bytes(crate::abo::ABO_FLAG_NATIVE as nat, 4));
    assert(h.subrange(28, 32) =~= le_bytes(crate::abo::ABO_HEADER_SIZE as nat, 4));
    assert(h.subrange(32, 36) =~= le_bytes(msize, 4));
    assert(h.subrange(36, 40) =~= le_bytes(toff, 4));
    assert(h.subrange(40, 44) =~= le_bytes(n, 4));
    assert(h.subrange(44, 48) =~= le_bytes(eo, 4));
    lemma_same_prefix(b, h, 0, 4);
    lemma_same_prefix(b, h, 4, 6);
    lemma_same_prefix(b, h, 6, 8);
    lemma_same_prefix(b, h, 8, 24);
    lemma_same_prefix(b, h, 24, 28);
    lemma_same_prefix(b, h, 28, 32);
    lemma_same_prefix(b, h, 32, 36);
    lemma_same_prefix(b, h, 36, 40);
    lemma_same_prefix(b, h, 40, 44);
    lemma_same_prefix(b, h, 44, 48);
    lemma_le_field(b, 4, 0, 2);
    lemma_le_field(b, 6, 0, 2);
    lemma_le_field(b, 24, 1, 4);
    lemma_le_field(b, 28, 64, 4);
    lemma_le_field(b, 32, msize, 4);
    lemma_le_field(b, 36, toff, 4);
    lemma_le_field(b, 40, n, 4);
    lemma_le_field(b, 44, eo, 4);
}

proof fn lemma_window(b: Seq<u8>, w: Seq<u8>, base: int, x: int, y: int)
    requires
        0 <= base,
        0 <= x <= y <= w.len(),
        base + w.len() <= b.len(),
        forall|i: int| 0 <= i < w.len() ==> b[base + i] == w[i],
    ensures
        b.subrange(base + x, base + y) == w.subrange(x, y),
{
    assert forall|i: int| 0 <= i < y - x implies b.subrange(base + x, base + y)[i] == w.subrange(
        x,
        y,
    )[i] by {
        assert(b[base + (x + i)] == w[x + i]);
    }
    assert(b.subrange(base + x, base + y) =~= w.subrange(x, y));
}

proof fn lemma_entry_bytes_len(s: AboSegmentModel)
    ensures
        entry_bytes(s).len() == 32,
{
    lemma_le_lens(s.vaddr as nat);
    lemma_le_lens(s.mem_size as nat);
    lemma_le_lens(s.file_off as nat);
    lemma_le_lens(s.file_size as nat);
    lemma_le_lens(s.flags as nat);
}

/// The table entry of segment `j` is the `j`-th group of 32 bytes of the table.
proof fn lemma_table_index(ms: Seq<AboSegmentModel>, j: int)
    requires
        0 <= j < ms.len(),
    ensures
        table_bytes(ms).len() == 32 * ms.len(),
        table_bytes(ms).subrange(32 * j, 32 * j + 32) == entry_bytes(ms[j]),
    decreases ms.len(),
{
    lemma_table_len(ms);
    lemma_table_len(ms.drop_last());
    lemma_entry_bytes_len(ms.last());
    let t = table_bytes(ms);
    let front = table_bytes(ms.drop_last());
    if j == ms.len() - 1 {
        assert(t.subrange(32 * j, 32 * j + 32) =~= entry_bytes(ms.last()));
    } else {
        lemma_table_index(ms.drop_last(), j);
        assert(t.subrange(32 * j, 32 * j + 32) =~= front.subrange(32 * j, 32 * j + 32));
    }
}

proof fn lemma_table_len(ms: Seq<AboSegmentModel>)
    ensures
        table_bytes(ms).len() == 32 * ms.len(),
    decreases ms.len(),
{
    if ms.len() > 0 {
        lemma_table_len(ms.drop_last());
        lemma_entry_bytes_len(ms.last());
    }
}

/// An entry written as `entry_bytes` reads back as the table entry of its segment.
proof fn lemma_entry_readback(b: Seq<u8>, off: int, s: AboSegmentModel)
    requires
        0 <= off,
        off + 32 <= b.len(),
        b.subrange(off, off + 32) == entry_bytes(s),
    ensures
        entry_at(b, off) == table_entry(s),
{
    let w = entry_bytes(s);
    lemma_entry_bytes_len(s);
    lemma_le_lens(s.vaddr as nat);
    lemma_le_lens(s.mem_size as nat);
    lemma_le_lens(s.file_off as nat);
    lemma_le_lens(s.file_size as nat);
    lemma_le_lens(s.flags as nat);
    lemma_pow256_values();
    assert forall|i: int| 0 <= i < 32 implies b[off + i] == w[i] by {
        assert(b.subrange(off, off + 32)[i] == b[off + i]);
    }
    assert(w.subrange(0, 8) =~= le_bytes(s.vaddr as nat, 8));
    assert(w.subrange(8, 16) =~= le_bytes(s.mem_size as nat, 8));
    assert(w.subrange(16, 24) =~= le_bytes(s.file_off as nat, 8));
    assert(w.subrange(24, 28) =~= le_bytes(s.file_size as nat, 4));
    assert(w.subrange(28, 32) =~= le_bytes(s.flags as nat, 4));
    lemma_window(b, w, off, 0, 8);
    lemma_window(b, w, off, 8, 16);
    lemma_window(b, w, off, 16, 24);
    lemma_window(b, w, off, 24, 28);
    lemma_window(b, w, off, 28, 32);
    lemma_le_field(b, off, s.vaddr as nat, 8);
    lemma_le_field(b, off + 8, s.mem_size as nat, 8);
    lemma_le_field(b, off + 16, s.file_off as nat, 8);
    lemma_le_field(b, off + 24, s.file_size as nat, 4);
    lemma_le_field(b, off + 28, s.flags as nat, 4);
}

proof fn lemma_read_table(
    b: Seq<u8>,
    toff: nat,
    i: nat,
    n: nat,
    acc: Seq<AboTableEntry>,
    expected: Seq<AboTableEntry>,
)
    requires
        i <= n,
        expected.len() == n,
        toff + 32 * n <= b.len(),
        forall|j: int| i <= j < n ==> #[trigger] entry_at(b, toff + 32 * j) == expected[j],
    ensures
        read_table(b, toff, i, n, acc) == acc + expected.subrange(i as int, n as int),
    decreases n - i,
{
    if i == n {
        assert(acc + expected.subrange(i as int, n as int) =~= acc);
    } else {
        assert(entry_at(b, toff + 32 * (i as int)) == expected[i as int]);
        assert(toff + 32 * (i as int) + 32 <= b.len());
        assert(toff + i * crate::abo::ABO_SEGMENT_SIZE == toff + 32 * (i as int));
        assert(read_table(b, toff, i, n, acc) == read_table(
            b,
            toff,
            i + 1,
            n,
            acc.push(entry_at(b, toff + 32 * (i as int))),
        ));
        lemma_read_table(b, toff, i + 1, n, acc.push(expected[i as int]), expected);
        assert(acc.push(expected[i as int]) + expected.subrange(i as int + 1, n as int) =~= acc
            + expected.subrange(i as int, n as int));
    }
}

proof fn lemma_table_readback(b: Seq<u8>, hm: Seq<u8>, d: Seq<u8>, e: ElfModel, m: ManifestModel)
    requires
        hm.len() == table_off(m),
        b == hm + table_bytes(spec_abo_segments(d, e, m)) + data_bytes(spec_abo_segments(d, e, m)),
    ensures
        read_table(b, table_off(m), 0, e.segments.len(), Seq::empty()) == spec_abo_segments(
            d,
            e,
            m,
        ).map_values(|s: AboSegmentModel| table_entry(s)),
{
    let ms = spec_abo_segments(d, e, m);
    let t = table_bytes(ms);
    let n = e.segments.len();
    crate::abo::lemma_abo_segments_len(
        d,
        e.segments,
        load_bias(e.e_type),
        crate::abo::data_off(e, m),
    );
    lemma_table_len(ms);
    let expected = ms.map_values(|s: AboSegmentModel| table_entry(s));
    assert forall|i: int| 0 <= i < t.len() implies b[hm.len() + i] == t[i] by {}
    assert(table_off(m) + 32 * n <= b.len());
    assert forall|j: int| 0 <= j < n implies #[trigger] entry_at(b, table_off(m) + 32 * j)
        == expected[j] by {
        lemma_table_index(ms, j);
        let off = table_off(m) + 32 * j;
        lemma_window(b, t, hm.len() as int, 32 * j, 32 * j + 32);
        lemma_entry_readback(b, off, ms[j]);
    }
    lemma_read_table(b, table_off(m), 0, n, Seq::empty(), expected);
    assert(Seq::<AboTableEntry>::empty() + expected.subrange(0, n as int) =~= expected);
}

/// Reading back a bundle that was built gives what was put in.
///
/// The bundle passes the check; its header holds the version 0.0, the id, the native flag,
/// the manifest's place and size, the table's place, the number of segments and the entry
/// point's offset (each 32-bit field the low 32 bits of its value); where the sizes fit in
/// those fields, the manifest reads back as written and the segment table as built.
#[verifier::rlimit(80)]
pub proof fn lemma_build_readback(d: Seq<u8>, e: ElfModel, m: ManifestModel, uuid: Seq<u8>)
    requires
        uuid.len() == 16,
        build_admits(d, e, m),
    ensures
        spec_build_abo(d, e, m, uuid) matches Ok(b) ==> {
            &&& spec_check_abo(b) == Ok::<(), crate::abo::AboFormatError>(())
            &&& spec_parse_abo_header(b) == Ok::<AboHeaderModel, crate::abo::AboFormatError>(
                expected_header(e, m, uuid),
            )
            &&& spec_serialize(m).len() < 0x1_0000_0000 ==> spec_abo_manifest(
                b,
                expected_header(e, m, uuid),
            ) == if spec_serialize(m).len() == 0 {
                None
            } else {
                Some(spec_serialize(m))
            }
            &&& table_off(m) < 0x1_0000_0000 && e.segments.len() < 0x1_0000_0000
                ==> spec_abo_table(b, expected_header(e, m, uuid)) == spec_abo_segments(
                d,
                e,
                m,
            ).map_values(|s: AboSegmentModel| table_entry(s))
        },
{
    if let Ok(b) = spec_build_abo(d, e, m, uuid) {
        let mbytes = spec_serialize(m);
        let ms = spec_abo_segments(d, e, m);
        let n = e.segments.len();
        let eo = abo_entry_offset(e) as nat;
        let h = header_bytes(uuid, mbytes.len(), table_off(m), n, eo);
        let t = table_bytes(ms);
        let dt = data_bytes(ms);
        let hm = h + mbytes;
        assert(b == hm + t + dt);
        lemma_header_len(uuid, mbytes.len(), table_off(m), n, eo);
        lemma_image_readback(uuid, mbytes, table_off(m), n, eo, t + dt);
        assert(hm + t + dt =~= hm + (t + dt));
        if table_off(m) < 0x1_0000_0000 && n < 0x1_0000_0000 {
            lemma_table_readback(b, hm, d, e, m);
        }
    }
}

proof fn lemma_header_len(uuid: Seq<u8>, msize: nat, toff: nat, n: nat, eo: nat)
    requires
        uuid.len() == 16,
    ensures
        header_bytes(uuid, msize, toff, n, eo).len() == 64,
{
    reveal(header_bytes);
    lemma_le_lens(crate::abo::ABO_VERSION_MAJ as nat);
    lemma_le_lens(crate::abo::ABO_VERSION_MIN as nat);
    lemma_le_lens(crate::abo::ABO_FLAG_NATIVE as nat);
    lemma_le_lens(crate::abo::ABO_HEADER_SIZE as nat);
    lemma_le_lens(msize);
    lemma_le_lens(toff);
    lemma_le_lens(n);
    lemma_le_lens(eo);
}

/// The header and the manifest of an image read back as written.
proof fn lemma_image_readback(
    uuid: Seq<u8>,
    mbytes: Seq<u8>,
    toff: nat,
    n: nat,
    eo: nat,
    rest: Seq<u8>,
)
    requires
        uuid.len() == 16,
    ensures
        ({
            let b = header_bytes(uuid, mbytes.len(), toff, n, eo) + mbytes + rest;
            let hm = AboHeaderModel {
                version_major: 0,
                version_minor: 0,
                uuid: uuid,
                flags: 1,
                manifest_off: 64,
                manifest_size: (mbytes.len() % 0x1_0000_0000) as u32,
                segments_off: (toff % 0x1_0000_0000) as u32,
                segments_count: (n % 0x1_0000_0000) as u32,
                entry_off: (eo % 0x1_0000_0000) as u32,
            };
            &&& spec_parse_abo_header(b) == Ok::<AboHeaderModel, crate::abo::AboFormatError>(hm)
            &&& spec_check_abo(b) == Ok::<(), crate::abo::AboFormatError>(())
            &&& mbytes.len() < 0x1_0000_0000 ==> spec_abo_manifest(b, hm) == if mbytes.len()
                == 0 {
                None
            } else {
                Some(mbytes)
            }
        }),
{
    let h = header_bytes(uuid, mbytes.len(), toff, n, eo);
    let b = h + mbytes + rest;
    lemma_header_len(uuid, mbytes.len(), toff, n, eo);
    assert(b.subrange(0, 64) =~= h);
    lemma_header_readback(b, uuid, mbytes.len(), toff, n, eo);
    if mbytes.len() < 0x1_0000_0000 && mbytes.len() > 0 {
        assert(b.subrange(64, 64 + mbytes.len() as int) =~= mbytes);
    }
}

/// The bytes of the segments follow each other in the order of the segments.
proof fn lemma_data_index(d: Seq<u8>, segs: Seq<ElfSegment>, bias: u64, off: nat, j: int)
    requires
        0 <= j < segs.len(),
        forall|k: int|
            0 <= k < segs.len() ==> #[trigger] segs[k].p_offset + segs[k].p_filesz <= d.len(),
    ensures
        data_bytes(abo_segments(d, segs, bias, off)).len() == sum_filesz(segs),
        data_bytes(abo_segments(d, segs, bias, off)).subrange(
            sum_filesz(segs.take(j)) as int,
            sum_filesz(segs.take(j)) + segs[j].p_filesz,
        ) == d.subrange(segs[j].p_offset as int, segs[j].p_offset + segs[j].p_filesz),
    decreases segs.len(),
{
    let dl = segs.drop_last();
    let front = abo_segments(d, dl, bias, off);
    let x = to_abo_segment(d, segs.last(), bias, off + sum_filesz(dl));
    assert(abo_segments(d, segs, bias, off).drop_last() =~= front);
    assert(forall|k: int| 0 <= k < dl.len() ==> dl[k] == segs[k]);
    if dl.len() > 0 {
        lemma_data_index(d, dl, bias, off, 0);
    }
    assert(segs[segs.len() - 1].p_offset + segs[segs.len() - 1].p_filesz <= d.len());
    if j == segs.len() - 1 {
        assert(segs.take(j) =~= dl);
        if dl.len() == 0 {
            assert(front =~= Seq::<AboSegmentModel>::empty());
        }
        let db = data_bytes(abo_segments(d, segs, bias, off));
        assert(db == data_bytes(front) + x.data);
        assert(db.subrange(sum_filesz(dl) as int, sum_filesz(dl) + segs[j].p_filesz) =~= x.data);
    } else {
        lemma_data_index(d, dl, bias, off, j);
        assert(dl.take(j) =~= segs.take(j));
        let db = data_bytes(abo_segments(d, segs, bias, off));
        let fb = data_bytes(front);
        assert(db == fb + x.data);
        crate::abo::lemma_sum_prefix(dl, j + 1);
        assert(dl.take(j + 1).drop_last() =~= dl.take(j));
        assert(sum_filesz(segs.take(j)) + segs[j].p_filesz <= sum_filesz(dl));
        assert(db.subrange(
            sum_filesz(segs.take(j)) as int,
            sum_filesz(segs.take(j)) + segs[j].p_filesz,
        ) =~= fb.subrange(
            sum_filesz(segs.take(j)) as int,
            sum_filesz(segs.take(j)) + segs[j].p_filesz,
        ));
    }
}

/// In a bundle that was built, the table entry of each segment points at that segment's
/// bytes, which are the bytes of the ELF segment in the file.
pub proof fn lemma_segment_data_readback(
    d: Seq<u8>,
    e: ElfModel,
    m: ManifestModel,
    uuid: Seq<u8>,
    j: int,
)
    requires
        uuid.len() == 16,
        build_admits(d, e, m),
        0 <= j < e.segments.len(),
    ensures
        spec_build_abo(d, e, m, uuid) matches Ok(b) ==> {
            let s = spec_abo_segments(d, e, m)[j];
            let seg = e.segments[j];
            &&& s.file_size == seg.p_filesz
            &&& s.file_off + s.file_size <= b.len()
            &&& b.subrange(s.file_off as int, s.file_off + s.file_size) == d.subrange(
                seg.p_offset as int,
                seg.p_offset + seg.p_filesz,
            )
        },
{
    if let Ok(b) = spec_build_abo(d, e, m, uuid) {
        let mbytes = spec_serialize(m);
        let ms = spec_abo_segments(d, e, m);
        let segs = e.segments;
        let n = segs.len();
        let bias = load_bias(e.e_type);
        let doff = crate::abo::data_off(e, m);
        let eo = abo_entry_offset(e) as nat;
        let h = header_bytes(uuid, mbytes.len(), table_off(m), n, eo);
        let t = table_bytes(ms);
        let dt = data_bytes(ms);
        assert(b == h + mbytes + t + dt);
        lemma_header_len(uuid, mbytes.len(), table_off(m), n, eo);
        crate::abo::lemma_abo_segments_len(d, segs, bias, doff);
        lemma_table_len(ms);
        crate::abo::lemma_abo_segments_index(d, segs, bias, doff, j);
        lemma_data_index(d, segs, bias, doff, j);
        crate::abo::lemma_sum_prefix(segs, j + 1);
        assert(segs.take(j + 1).drop_last() =~= segs.take(j));
        assert(segs[j].p_filesz <= u32::MAX);
        let start = sum_filesz(segs.take(j));
        let len = segs[j].p_filesz as int;
        assert(ms[j].file_off == doff + start);
        assert(ms[j].file_size == segs[j].p_filesz);
        let base = (h + mbytes + t).len() as int;
        assert(base == doff);
        assert(b.subrange(base + start, base + start + len) =~= dt.subrange(
            start as int,
            start + len,
        ));
    }
}

proof fn lemma_header_uuid(u1: Seq<u8>, u2: Seq<u8>, msize: nat, toff: nat, n: nat, eo: nat)
    requires
        u1.len() == 16,
        u2.len() == 16,
    ensures
        header_bytes(u1, msize, toff, n, eo).len() == 64,
        header_bytes(u2, msize, toff, n, eo).len() == 64,
        header_bytes(u2, msize, toff, n, eo).subrange(8, 24) == u2,
        forall|k: int|
            0 <= k < 64 && !(8 <= k < 24) ==> header_bytes(u1, msize, toff, n, eo)[k]
                == header_bytes(u2, msize, toff, n, eo)[k],
{
    reveal(header_bytes);
    lemma_header_len(u1, msize, toff, n, eo);
    lemma_header_len(u2, msize, toff, n, eo);
    let a = abo_magic() + le_bytes(crate::abo::ABO_VERSION_MAJ as nat, 2) + le_bytes(
        crate::abo::ABO_VERSION_MIN as nat,
        2,
    );
    let b = le_bytes(crate::abo::ABO_FLAG_NATIVE as nat, 4) + le_bytes(
        crate::abo::ABO_HEADER_SIZE as nat,
        4,
    ) + le_bytes(msize, 4) + le_bytes(toff, 4) + le_bytes(n, 4) + le_bytes(eo, 4) + Seq::new(
        16,
        |i: int| 0u8,
    );
    lemma_le_lens(crate::abo::ABO_VERSION_MAJ as nat);
    lemma_le_lens(crate::abo::ABO_VERSION_MIN as nat);
    assert(a.len() == 8);
    assert(header_bytes(u1, msize, toff, n, eo) =~= a + u1 + b);
    assert(header_bytes(u2, msize, toff, n, eo) =~= a + u2 + b);
    assert((a + u2 + b).subrange(8, 24) =~= u2);
}

/// The id reaches a bundle only at header bytes 8 to 24: a bundle built with another id
/// differs from it there and nowhere else.
pub proof fn lemma_uuid_locality(d: Seq<u8>, e: ElfModel, m: ManifestModel, u1: Seq<u8>, u2: Seq<u8>)
    requires
        u1.len() == 16,
        u2.len() == 16,
    ensures
        spec_build_abo(d, e, m, u1) matches Ok(v1) ==> spec_build_abo(d, e, m, u2) matches Ok(v2)
            && v2.len() == v1.len() && v2.subrange(8, 24) == u2 && forall|k: int|
            0 <= k < v1.len() && !(8 <= k < 24) ==> v2[k] == v1[k],
{
    if let Ok(v1) = spec_build_abo(d, e, m, u1) {
        let mbytes = spec_serialize(m);
        let ms = spec_abo_segments(d, e, m);
        let eo = abo_entry_offset(e) as nat;
        let n = e.segments.len();
        let rest = mbytes + table_bytes(ms) + data_bytes(ms);
        let h1 = header_bytes(u1, mbytes.len(), table_off(m), n, eo);
        let h2 = header_bytes(u2, mbytes.len(), table_off(m), n, eo);
        lemma_header_uuid(u1, u2, mbytes.len(), table_off(m), n, eo);
        let v2 = spec_build_abo(d, e, m, u2)->Ok_0;
        assert(v1 =~= h1 + rest);
        assert(v2 =~= h2 + rest);
        assert(v2.subrange(8, 24) =~= h2.subrange(8, 24));
    }
}

/// The bytes of a table entry after its address.
pub open spec fn entry_tail(s: AboSegmentModel) -> Seq<u8> {
    le_bytes(s.mem_size as nat, 8) + le_bytes(s.file_off as nat, 8) + le_bytes(s.file_size as nat, 4)
        + le_bytes(s.flags as nat, 4)
}

proof fn lemma_entry_split(s: AboSegmentModel)
    ensures
        entry_bytes(s) == le_bytes(s.vaddr as nat, 8) + entry_tail(s),
        le_bytes(s.vaddr as nat, 8).len() == 8,
        entry_bytes(s).len() == 32,
{
    lemma_le_lens(s.vaddr as nat);
    lemma_entry_bytes_len(s);
    assert(entry_bytes(s) =~= le_bytes(s.vaddr as nat, 8) + entry_tail(s));
}

/// Placing the segments at the load base changes the table only in its addresses.
proof fn lemma_bias_tables(d: Seq<u8>, segs: Seq<ElfSegment>, off: nat)
    requires
        forall|j: int| 0 <= j < segs.len() ==> #[trigger] segs[j].p_vaddr + crate::abo::PIE_LOAD_BASE <= u64::MAX,
    ensures
        ({
            let ms1 = abo_segments(d, segs, 0, off);
            let ms2 = abo_segments(d, segs, crate::abo::PIE_LOAD_BASE, off);
            &&& data_bytes(ms2) == data_bytes(ms1)
            &&& table_bytes(ms1).len() == 32 * segs.len()
            &&& table_bytes(ms2).len() == 32 * segs.len()
            &&& forall|k: int|
                0 <= k < 32 * segs.len() && k % 32 >= 8 ==> table_bytes(ms2)[k] == table_bytes(ms1)[k]
        }),
    decreases segs.len(),
{
    let b = crate::abo::PIE_LOAD_BASE;
    let ms1 = abo_segments(d, segs, 0, off);
    let ms2 = abo_segments(d, segs, b, off);
    crate::abo::lemma_abo_segments_len(d, segs, 0, off);
    crate::abo::lemma_abo_segments_len(d, segs, b, off);
    lemma_table_len(ms1);
    lemma_table_len(ms2);
    if segs.len() > 0 {
        let dl = segs.drop_last();
        assert forall|j: int| 0 <= j < dl.len() implies #[trigger] dl[j].p_vaddr + b <= u64::MAX by {
            assert(dl[j] == segs[j]);
        }
        lemma_bias_tables(d, dl, off);
        let f1 = abo_segments(d, dl, 0, off);
        let f2 = abo_segments(d, dl, b, off);
        crate::abo::lemma_abo_segments_len(d, dl, 0, off);
        lemma_table_len(f1);
        lemma_table_len(f2);
        assert(ms1.drop_last() =~= f1);
        assert(ms2.drop_last() =~= f2);
        let x1 = ms1.last();
        let x2 = ms2.last();
        lemma_entry_split(x1);
        lemma_entry_split(x2);
        assert(entry_tail(x1) == entry_tail(x2));
        let t1 = table_bytes(ms1);
        let t2 = table_bytes(ms2);
        let base = 32 * dl.len();
        assert(t1 == table_bytes(f1) + entry_bytes(x1));
        assert(t2 == table_bytes(f2) + entry_bytes(x2));
        assert forall|k: int| 0 <= k < 32 * segs.len() && k % 32 >= 8 implies t2[k] == t1[k] by {
            if k >= base {
                let k2 = k - base;
                vstd::arithmetic::div_mod::lemma_mod_multiples_vanish(dl.len() as int, k2, 32);
                assert(32 * dl.len() + k2 == k);
                assert(k2 % 32 == k2);
                assert(t1[k] == entry_bytes(x1)[k2]);
                assert(t2[k] == entry_bytes(x2)[k2]);
            }
        }
    }
}

/// The address field of table entry `j` of a bundle `hm + table + rest` reads as the segment's
/// address.
proof fn lemma_vaddr_field(v: Seq<u8>, hm: Seq<u8>, ms: Seq<AboSegmentModel>, rest: Seq<u8>, j: int)
    requires
        0 <= j < ms.len(),
        v == hm + table_bytes(ms) + rest,
    ensures
        le_at(v, hm.len() + 32 * j, 8) == ms[j].vaddr,
{
    let t = table_bytes(ms);
    lemma_table_index(ms, j);
    lemma_entry_split(ms[j]);
    assert forall|i: int| 0 <= i < t.len() implies v[hm.len() + i] == t[i] by {}
    lemma_window(v, t, hm.len() as int, 32 * j, 32 * j + 8);
    assert(t.subrange(32 * j, 32 * j + 8) =~= le_bytes(ms[j].vaddr as nat, 8));
    lemma_le_field(v, hm.len() + 32 * j, ms[j].vaddr as nat, 8);
    lemma_pow256_values();
}

/// A position-independent bundle is the bundle of the same executable at address 0, with
/// every segment address raised by the load base `0x400000` and nothing else changed (the
/// entry offset included), where no address passes `u64::MAX` when raised.
pub proof fn lemma_pie_bias(d: Seq<u8>, e1: ElfModel, e2: ElfModel, m: ManifestModel, u: Seq<u8>)
    requires
        u.len() == 16,
        e1.e_type == crate::elf::ET_EXEC,
        e2 == (ElfModel { e_type: crate::elf::ET_DYN, ..e1 }),
        e1.e_entry + crate::abo::PIE_LOAD_BASE <= u64::MAX,
        forall|j: int|
            0 <= j < e1.segments.len() ==> #[trigger] e1.segments[j].p_vaddr
                + crate::abo::PIE_LOAD_BASE <= u64::MAX,
    ensures
        spec_build_abo(d, e1, m, u) matches Ok(v1) ==> spec_build_abo(d, e2, m, u) matches Ok(v2)
            && v2.len() == v1.len() && (forall|i: int|
            0 <= i < e1.segments.len() ==> #[trigger] le_at(v2, table_off(m) + 32 * i, 8) == le_at(
                v1,
                table_off(m) + 32 * i,
                8,
            ) + crate::abo::PIE_LOAD_BASE) && forall|k: int|
            0 <= k < v1.len() && !(table_off(m) <= k < table_off(m) + 32 * e1.segments.len() && (k
                - table_off(m)) % 32 < 8) ==> v2[k] == v1[k],
{
    if let Ok(v1) = spec_build_abo(d, e1, m, u) {
        let b = crate::abo::PIE_LOAD_BASE;
        let segs = e1.segments;
        let n = segs.len();
        crate::abo::lemma_first_exec_bound(segs);
        assert(crate::abo::spec_build_error(e2) is None);
        assert(abo_entry_offset(e2) == abo_entry_offset(e1));
        let v2 = spec_build_abo(d, e2, m, u)->Ok_0;
        let mbytes = spec_serialize(m);
        let doff = crate::abo::data_off(e1, m);
        assert(crate::abo::data_off(e2, m) == doff);
        let ms1 = abo_segments(d, segs, 0, doff);
        let ms2 = abo_segments(d, segs, b, doff);
        let eo = abo_entry_offset(e1) as nat;
        let h = header_bytes(u, mbytes.len(), table_off(m), n, eo);
        let hm = h + mbytes;
        lemma_header_len(u, mbytes.len(), table_off(m), n, eo);
        lemma_bias_tables(d, segs, doff);
        let t1 = table_bytes(ms1);
        let t2 = table_bytes(ms2);
        let dt = data_bytes(ms1);
        assert(v1 == hm + t1 + dt);
        assert(v2 == hm + t2 + dt);
        assert forall|i: int| 0 <= i < n implies #[trigger] le_at(v2, table_off(m) + 32 * i, 8) == le_at(
            v1,
            table_off(m) + 32 * i,
            8,
        ) + b by {
            crate::abo::lemma_abo_segments_index(d, segs, 0, doff, i);
            crate::abo::lemma_abo_segments_index(d, segs, b, doff, i);
            lemma_vaddr_field(v1, hm, ms1, dt, i);
            lemma_vaddr_field(v2, hm, ms2, dt, i);
        }
        assert forall|k: int|
            0 <= k < v1.len() && !(table_off(m) <= k < table_off(m) + 32 * n && (k - table_off(m))
                % 32 < 8) implies v2[k] == v1[k] by {
            if hm.len() <= k < hm.len() + 32 * n {
                assert(v1[k] == t1[k - hm.len()]);
                assert(v2[k] == t2[k - hm.len()]);
            }
        }
    }
}

/// Reading the segment table of a built bundle gives, for each ELF segment in order, its
/// address after the load bias, its memory size, where its bytes are, their number, and its
/// permissions: readable, writable as the segment is, executable as the segment is.
pub proof fn lemma_dump_segment(d: Seq<u8>, e: ElfModel, m: ManifestModel, u: Seq<u8>, i: int)
    requires
        u.len() == 16,
        build_admits(d, e, m),
        0 <= i < e.segments.len(),
        table_off(m) < 0x1_0000_0000,
        e.segments.len() < 0x1_0000_0000,
    ensures
        spec_build_abo(d, e, m, u) matches Ok(b) ==> {
            let t = spec_abo_table(b, expected_header(e, m, u));
            let seg = e.segments[i];
            let bias = load_bias(e.e_type);
            &&& t.len() == e.segments.len()
            &&& t[i].vaddr == crate::abo::wrap_add64(seg.p_vaddr, bias)
            &&& t[i].mem_size == seg.p_memsz
            &&& t[i].file_off == crate::abo::data_off(e, m) + sum_filesz(e.segments.take(i))
            &&& t[i].file_size == seg.p_filesz
            &&& t[i].flags & crate::abo::ABO_SEG_R != 0
            &&& (t[i].flags & crate::abo::ABO_SEG_W != 0) == (seg.p_flags & crate::elf::PF_W != 0)
            &&& (t[i].flags & crate::abo::ABO_SEG_X != 0) == (seg.p_flags & crate::elf::PF_X != 0)
        },
{
    if let Ok(b) = spec_build_abo(d, e, m, u) {
        lemma_build_readback(d, e, m, u);
        let bias = load_bias(e.e_type);
        let doff = crate::abo::data_off(e, m);
        crate::abo::lemma_abo_segments_index(d, e.segments, bias, doff, i);
        crate::abo::lemma_abo_flags(e.segments[i].p_flags);
        crate::abo::lemma_sum_prefix(e.segments, i);
        assert(e.segments[i].p_filesz <= u32::MAX);
    }
}

} // verus!
