//! Bundle ids: derived from the component name, and written in the usual hexadecimal form.
use vstd::prelude::*;
use vstd::string::StrSliceExecFns;
use vstd::string::StringExecFns;
use vstd::utf8::encode_utf8;
use vstd::arithmetic::div_mod::lemma_div_denominator;
use crate::bytes::{le_bytes, lemma_le_roundtrip, push_le};

verus! {

pub const NAME_HASH_SEED: u64 = 0x1234_5678_9ABC_DEF0;
pub const NAME_HASH_PRIME: u64 = 0x100_0000_01B3;

/// `x * y` modulo `2^64`.
pub open spec fn wrap_mul64(x: u64, y: u64) -> u64 {
    ((x as nat * y as nat) % 0x1_0000_0000_0000_0000) as u64
}

/// The 64-bit hash of a name's bytes: each byte is added after a multiplication by the prime.
pub open spec fn name_hash(bytes: Seq<u8>) -> u64
    decreases bytes.len(),
{
    if bytes.len() == 0 {
        NAME_HASH_SEED
    } else {
        (((wrap_mul64(name_hash(bytes.drop_last()), NAME_HASH_PRIME) as nat) + (
        bytes.last() as nat)) % 0x1_0000_0000_0000_0000) as u64
    }
}

/// The id of a component named `name`: `"Aste"`, then the hash of the name's UTF-8 bytes in
/// little-endian order with the version and variant bits of a version-4 UUID, then zeros.
pub open spec fn spec_name_to_uuid(name: Seq<char>) -> Seq<u8> {
    let h = le_bytes(name_hash(encode_utf8(name)) as nat, 8);
    seq![
        0x41u8,
        0x73u8,
        0x74u8,
        0x65u8,
        h[0],
        h[1],
        (h[2] & 0x0f) | 0x40,
        h[3],
        (h[4] & 0x3f) | 0x80,
        h[5],
        h[6],
        h[7],
        0u8,
        0u8,
        0u8,
        0u8,
    ]
}

/// Derives the id of a bundle from the component's name; the same name gives the same id.
pub fn name_to_uuid(name: &str) -> (uuid: [u8; 16])
    ensures
        uuid@ == spec_name_to_uuid(name@),
{
    let bytes = name.as_bytes();
    let ghost all = encode_utf8(name@);
    let n = bytes.len();
    let mut h: u64 = NAME_HASH_SEED;
    assert(all.take(0) =~= Seq::<u8>::empty());
    for i in 0..n
        invariant
            n == bytes@.len(),
            bytes@ == all,
            h == name_hash(all.take(i as int)),
    {
        assert(all.take(i + 1).drop_last() =~= all.take(i as int));
        h = h.wrapping_mul(NAME_HASH_PRIME).wrapping_add(bytes[i] as u64);
    }
    assert(all.take(n as int) =~= all);
    let mut hb: Vec<u8> = Vec::new();
    push_le(&mut hb, h, 8);
    proof {
        lemma_le_roundtrip(h as nat, 8);
        assert(hb@ =~= le_bytes(h as nat, 8));
    }
    let uuid: [u8; 16] = [
        0x41,
        0x73,
        0x74,
        0x65,
        hb[0],
        hb[1],
        (hb[2] & 0x0f) | 0x40,
        hb[3],
        (hb[4] & 0x3f) | 0x80,
        hb[5],
        hb[6],
        hb[7],
        0,
        0,
        0,
        0,
    ];
    assert(uuid@ =~= spec_name_to_uuid(name@));
    uuid
}

/// The version nibble of every id is 4 and its variant bits are `10`, as in a version-4 UUID;
/// its first four bytes spell `"Aste"`.
pub proof fn lemma_uuid_marks(name: Seq<char>)
    ensures
        spec_name_to_uuid(name).len() == 16,
        spec_name_to_uuid(name).subrange(0, 4) == seq![0x41u8, 0x73u8, 0x74u8, 0x65u8],
        spec_name_to_uuid(name)[6] & 0xf0 == 0x40,
        spec_name_to_uuid(name)[8] & 0xc0 == 0x80,
{
    let u = spec_name_to_uuid(name);
    assert(u.subrange(0, 4) =~= seq![0x41u8, 0x73u8, 0x74u8, 0x65u8]);
    let b6 = le_bytes(name_hash(encode_utf8(name)) as nat, 8)[2];
    let b8 = le_bytes(name_hash(encode_utf8(name)) as nat, 8)[4];
    assert(((b6 & 0x0f) | 0x40) & 0xf0 == 0x40) by (bit_vector);
    assert(((b8 & 0x3f) | 0x80) & 0xc0 == 0x80) by (bit_vector);
}

/// The lowercase hexadecimal digit of `d`, for `d < 16`.
pub open spec fn hex_char(d: nat) -> char {
    seq!['0', '1', '2', '3', '4', '5', '6', '7', '8', '9', 'a', 'b', 'c', 'd', 'e', 'f'][d as int]
}

/// The two lowercase hexadecimal digits of a byte.
pub open spec fn hex_byte(b: u8) -> Seq<char> {
    seq![hex_char((b / 16) as nat), hex_char((b % 16) as nat)]
}

pub open spec fn hex_bytes(s: Seq<u8>) -> Seq<char>
    decreases s.len(),
{
    if s.len() == 0 {
        Seq::empty()
    } else {
        hex_bytes(s.drop_last()) + hex_byte(s.last())
    }
}

/// An id in its textual form: 32 lowercase hexadecimal digits in groups of 8, 4, 4, 4 and 12,
/// joined by `-`.
pub open spec fn spec_format_uuid(u: Seq<u8>) -> Seq<char> {
    hex_bytes(u.subrange(0, 4)) + seq!['-'] + hex_bytes(u.subrange(4, 6)) + seq!['-'] + hex_bytes(
        u.subrange(6, 8),
    ) + seq!['-'] + hex_bytes(u.subrange(8, 10)) + seq!['-'] + hex_bytes(u.subrange(10, 16))
}

/// The lowercase hexadecimal digit of `d`.
fn hex_digit(d: u8) -> (s: &'static str)
    requires
        d < 16,
    ensures
        s@ == seq![hex_char(d as nat)],
{
    let digits = "0123456789abcdef";
    proof {
        reveal_strlit("0123456789abcdef");
    }
    let s = digits.substring_ascii(d as usize, d as usize + 1);
    assert(s@ =~= seq![hex_char(d as nat)]);
    s
}

/// Appends the digits of the bytes `u[a..b]`.
fn push_hex(out: &mut String, u: &[u8; 16], a: usize, b: usize)
    requires
        a <= b <= 16,
    ensures
        final(out)@ == old(out)@ + hex_bytes(u@.subrange(a as int, b as int)),
{
    assert(u@.subrange(a as int, a as int) =~= Seq::<u8>::empty());
    assert(out@ =~= old(out)@ + hex_bytes(u@.subrange(a as int, a as int)));
    for i in a..b
        invariant
            a <= b <= 16,
            u@.len() == 16,
            out@ == old(out)@ + hex_bytes(u@.subrange(a as int, i as int)),
    {
        let byte = u[i];
        out.append(hex_digit(byte / 16));
        out.append(hex_digit(byte % 16));
        assert(u@.subrange(a as int, i + 1).drop_last() =~= u@.subrange(a as int, i as int));
        assert(out@ =~= old(out)@ + hex_bytes(u@.subrange(a as int, i + 1)));
    }
}

/// Appends `-`.
fn push_dash(out: &mut String)
    ensures
        final(out)@ == old(out)@ + seq!['-'],
{
    proof {
        reveal_strlit("-");
    }
    out.append("-");
}

/// Writes an id as `xxxxxxxx-xxxx-xxxx-xxxx-xxxxxxxxxxxx`, in lowercase hexadecimal.
pub fn format_uuid(uuid: &[u8; 16]) -> (s: String)
    ensures
        s@ == spec_format_uuid(uuid@),
{
    let mut s = String::new();
    push_hex(&mut s, uuid, 0, 4);
    push_dash(&mut s);
    push_hex(&mut s, uuid, 4, 6);
    push_dash(&mut s);
    push_hex(&mut s, uuid, 6, 8);
    push_dash(&mut s);
    push_hex(&mut s, uuid, 8, 10);
    push_dash(&mut s);
    push_hex(&mut s, uuid, 10, 16);
    assert(s@ =~= spec_format_uuid(uuid@));
    s
}

/// The value of a lowercase hexadecimal digit.
pub open spec fn hex_value(c: char) -> nat {
    let u = c as u32;
    if 0x30 <= u <= 0x39 {
        (u - 0x30) as nat
    } else if 0x61 <= u <= 0x66 {
        (u - 0x61 + 10) as nat
    } else {
        0
    }
}

/// Where the first digit of byte `i` of an id stands in its textual form.
pub open spec fn uuid_text_pos(i: int) -> int {
    if i < 4 {
        2 * i
    } else if i < 6 {
        2 * i + 1
    } else if i < 8 {
        2 * i + 2
    } else if i < 10 {
        2 * i + 3
    } else {
        2 * i + 4
    }
}

/// The id that a textual form spells: each byte from its two digits.
pub open spec fn uuid_from_text(s: Seq<char>) -> Seq<u8> {
    Seq::new(
        16,
        |i: int| (hex_value(s[uuid_text_pos(i)]) * 16 + hex_value(s[uuid_text_pos(i) + 1])) as u8,
    )
}

proof fn lemma_hex_value_char(d: nat)
    requires
        d < 16,
    ensures
        hex_value(hex_char(d)) == d,
{
    let digits = seq!['0', '1', '2', '3', '4', '5', '6', '7', '8', '9', 'a', 'b', 'c', 'd', 'e', 'f'];
    assert(hex_char(d) == digits[d as int]);
}

proof fn lemma_hex_bytes_index(s: Seq<u8>, i: int)
    requires
        0 <= i < s.len(),
    ensures
        hex_bytes(s).len() == 2 * s.len(),
        hex_bytes(s)[2 * i] == hex_char((s[i] / 16) as nat),
        hex_bytes(s)[2 * i + 1] == hex_char((s[i] % 16) as nat),
    decreases s.len(),
{
    lemma_hex_bytes_len(s.drop_last());
    if i < s.len() - 1 {
        lemma_hex_bytes_index(s.drop_last(), i);
    }
}

proof fn lemma_hex_bytes_len(s: Seq<u8>)
    ensures
        hex_bytes(s).len() == 2 * s.len(),
    decreases s.len(),
{
    if s.len() > 0 {
        lemma_hex_bytes_len(s.drop_last());
    }
}

proof fn lemma_hex_pair(s: Seq<u8>, i: int, b: u8)
    requires
        0 <= i < s.len(),
        s[i] == b,
    ensures
        hex_value(hex_bytes(s)[2 * i]) * 16 + hex_value(hex_bytes(s)[2 * i + 1]) == b,
{
    lemma_hex_bytes_index(s, i);
    lemma_hex_value_char((b / 16) as nat);
    lemma_hex_value_char((b % 16) as nat);
}

/// The textual form of an id has 36 characters, `-` at 8, 13, 18 and 23, and its 32 digits
/// spell the id again.
pub proof fn lemma_format_uuid_decodes(u: Seq<u8>)
    requires
        u.len() == 16,
    ensures
        spec_format_uuid(u).len() == 36,
        spec_format_uuid(u)[8] == '-',
        spec_format_uuid(u)[13] == '-',
        spec_format_uuid(u)[18] == '-',
        spec_format_uuid(u)[23] == '-',
        uuid_from_text(spec_format_uuid(u)) == u,
{
    let h0 = hex_bytes(u.subrange(0, 4));
    let h1 = hex_bytes(u.subrange(4, 6));
    let h2 = hex_bytes(u.subrange(6, 8));
    let h3 = hex_bytes(u.subrange(8, 10));
    let h4 = hex_bytes(u.subrange(10, 16));
    lemma_hex_bytes_len(u.subrange(0, 4));
    lemma_hex_bytes_len(u.subrange(4, 6));
    lemma_hex_bytes_len(u.subrange(6, 8));
    lemma_hex_bytes_len(u.subrange(8, 10));
    lemma_hex_bytes_len(u.subrange(10, 16));
    let t = spec_format_uuid(u);
    assert forall|i: int| 0 <= i < 16 implies #[trigger] uuid_from_text(t)[i] == u[i] by {
        let p = uuid_text_pos(i);
        if i < 4 {
            lemma_hex_pair(u.subrange(0, 4), i, u[i]);
            assert(t[p] == h0[2 * i] && t[p + 1] == h0[2 * i + 1]);
        } else if i < 6 {
            lemma_hex_pair(u.subrange(4, 6), i - 4, u[i]);
            assert(t[p] == h1[2 * (i - 4)] && t[p + 1] == h1[2 * (i - 4) + 1]);
        } else if i < 8 {
            lemma_hex_pair(u.subrange(6, 8), i - 6, u[i]);
            assert(t[p] == h2[2 * (i - 6)] && t[p + 1] == h2[2 * (i - 6) + 1]);
        } else if i < 10 {
            lemma_hex_pair(u.subrange(8, 10), i - 8, u[i]);
            assert(t[p] == h3[2 * (i - 8)] && t[p + 1] == h3[2 * (i - 8) + 1]);
        } else {
            lemma_hex_pair(u.subrange(10, 16), i - 10, u[i]);
            assert(t[p] == h4[2 * (i - 10)] && t[p + 1] == h4[2 * (i - 10) + 1]);
        }
    }
    assert(uuid_from_text(t) =~= u);
}

/// Two ids with the same textual form are the same id.
pub proof fn lemma_format_uuid_injective(u1: Seq<u8>, u2: Seq<u8>)
    requires
        u1.len() == 16,
        u2.len() == 16,
    ensures
        spec_format_uuid(u1) == spec_format_uuid(u2) <==> u1 == u2,
{
    lemma_format_uuid_decodes(u1);
    lemma_format_uuid_decodes(u2);
}

/// The hash of no bytes is `0x123456789abcdef0`; each further byte `b` of the name, as it
/// stands, multiplies the hash by `0x100000001b3` and adds `b`, modulo `2^64`.
pub proof fn lemma_name_hash_step(s: Seq<u8>, b: u8)
    ensures
        name_hash(Seq::empty()) == 0x1234_5678_9ABC_DEF0,
        name_hash(s.push(b)) == ((name_hash(s) as nat) * 0x100_0000_01B3 + (b as nat))
            % 0x1_0000_0000_0000_0000,
{
    assert(s.push(b).drop_last() =~= s);
    vstd::arithmetic::div_mod::lemma_add_mod_noop(
        ((name_hash(s) as nat) * 0x100_0000_01B3) as int,
        b as int,
        0x1_0000_0000_0000_0000,
    );
    vstd::arithmetic::div_mod::lemma_small_mod(b as nat, 0x1_0000_0000_0000_0000);
}

/// The bytes of an id after `"Aste"` are the hash `h` of the name's UTF-8 bytes, least
/// significant byte first, with the version nibble of byte 6 set to 4 and the variant bits of
/// byte 8 set to `10`; the last four bytes are zero.
pub proof fn lemma_uuid_of_hash(name: Seq<char>)
    ensures
        ({
            let u = spec_name_to_uuid(name);
            let h = name_hash(encode_utf8(name)) as int;
            &&& u.len() == 16
            &&& u[4] == h % 0x100
            &&& u[5] == (h / 0x100) % 0x100
            &&& u[6] == (h / 0x1_0000) % 0x10 + 0x40
            &&& u[7] == (h / 0x100_0000) % 0x100
            &&& u[8] == (h / 0x1_0000_0000) % 0x40 + 0x80
            &&& u[9] == (h / 0x100_0000_0000) % 0x100
            &&& u[10] == (h / 0x1_0000_0000_0000) % 0x100
            &&& u[11] == (h / 0x100_0000_0000_0000) % 0x100
            &&& u[12] == 0 && u[13] == 0 && u[14] == 0 && u[15] == 0
        }),
{
    let h = name_hash(encode_utf8(name)) as nat;
    let hb = le_bytes(h, 8);
    reveal_with_fuel(le_bytes, 9);
    lemma_div_denominator(h as int, 0x100, 0x100);
    lemma_div_denominator(h as int, 0x1_0000, 0x100);
    lemma_div_denominator(h as int, 0x100_0000, 0x100);
    lemma_div_denominator(h as int, 0x1_0000_0000, 0x100);
    lemma_div_denominator(h as int, 0x100_0000_0000, 0x100);
    lemma_div_denominator(h as int, 0x1_0000_0000_0000, 0x100);
    lemma_div_denominator(h as int, 0x100_0000_0000_0000, 0x100);
    assert(hb[0] == h % 0x100);
    assert(hb[1] == (h / 0x100) % 0x100);
    assert(hb[2] == (h / 0x1_0000) % 0x100);
    assert(hb[3] == (h / 0x100_0000) % 0x100);
    assert(hb[4] == (h / 0x1_0000_0000) % 0x100);
    assert(hb[5] == (h / 0x100_0000_0000) % 0x100);
    assert(hb[6] == (h / 0x1_0000_0000_0000) % 0x100);
    assert(hb[7] == (h / 0x100_0000_0000_0000) % 0x100);
    let b2 = hb[2];
    let b4 = hb[4];
    assert((b2 & 0x0f) | 0x40 == b2 % 0x10 + 0x40) by (bit_vector);
    assert((b4 & 0x3f) | 0x80 == b4 % 0x40 + 0x80) by (bit_vector);
    vstd::arithmetic::div_mod::lemma_mod_mod(h as int / 0x1_0000, 0x10, 0x10);
    vstd::arithmetic::div_mod::lemma_mod_mod(h as int / 0x1_0000_0000, 0x40, 4);
}

/// Two names whose UTF-8 bytes differ only in their last byte get different ids: the byte
/// is hashed as it stands, so no two bytes are taken for one.
pub proof fn lemma_uuid_last_byte(n1: Seq<char>, n2: Seq<char>, s: Seq<u8>, b1: u8, b2: u8)
    requires
        encode_utf8(n1) == s.push(b1),
        encode_utf8(n2) == s.push(b2),
        b1 != b2,
    ensures
        spec_name_to_uuid(n1)[4] != spec_name_to_uuid(n2)[4],
        spec_name_to_uuid(n1) != spec_name_to_uuid(n2),
{
    lemma_name_hash_step(s, b1);
    lemma_name_hash_step(s, b2);
    lemma_uuid_of_hash(n1);
    lemma_uuid_of_hash(n2);
    let x = ((name_hash(s) as nat) * 0x100_0000_01B3) as int;
    vstd::arithmetic::div_mod::lemma_mod_mod(x + b1, 0x100, 0x1_0000_0000_0000_00);
    vstd::arithmetic::div_mod::lemma_mod_mod(x + b2, 0x100, 0x1_0000_0000_0000_00);
    vstd::arithmetic::div_mod::lemma_add_mod_noop(x, b1 as int, 0x100);
    vstd::arithmetic::div_mod::lemma_add_mod_noop(x, b2 as int, 0x100);
    vstd::arithmetic::div_mod::lemma_small_mod(b1 as nat, 0x100);
    vstd::arithmetic::div_mod::lemma_small_mod(b2 as nat, 0x100);
    let r = x % 0x100;
    assert((r + b1) % 0x100 != (r + b2) % 0x100) by (nonlinear_arith)
        requires
            0 <= r < 0x100,
            b1 != b2,
    ;
    assert(spec_name_to_uuid(n1)[4] != spec_name_to_uuid(n2)[4]);
}

} // verus!
