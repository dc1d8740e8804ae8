//! The text of a version-4 UUID made from two 64-bit random halves.

use vstd::prelude::*;
use crate::json::{hex_digit, hex};
use crate::text::string_from_chars;

verus! {

/// The `n` bytes of `h`, least significant first.
pub open spec fn le_bytes(h: nat, n: nat) -> Seq<u8>
    decreases n,
{
    if n == 0 {
        Seq::empty()
    } else {
        seq![(h % 256) as u8] + le_bytes(h / 256, (n - 1) as nat)
    }
}

/// The sixteen bytes: `h1` then `h2`, each least significant byte first,
/// with the version (4) in the high half of byte 6 and the variant (`10`)
/// in the top bits of byte 8.
pub open spec fn uuid_bytes(h1: u64, h2: u64) -> Seq<u8> {
    let b = le_bytes(h1 as nat, 8) + le_bytes(h2 as nat, 8);
    b.update(6, (b[6] & 0x0F) | 0x40).update(8, (b[8] & 0x3F) | 0x80)
}

/// Two lower-case hex digits of `b`.
pub open spec fn hex_byte(b: u8) -> Seq<char> {
    seq![hex_digit((b / 16) as nat), hex_digit((b % 16) as nat)]
}

/// The hex digits of `bs[from..to]`.
pub open spec fn hex_run(bs: Seq<u8>, from: int, to: int) -> Seq<char>
    decreases to - from,
{
    if to <= from {
        Seq::empty()
    } else {
        hex_run(bs, from, to - 1) + hex_byte(bs[to - 1])
    }
}

/// The UUID text: 32 hex digits in groups of 8, 4, 4, 4 and 12, joined by `-`.
pub open spec fn uuid_text(h1: u64, h2: u64) -> Seq<char> {
    let b = uuid_bytes(h1, h2);
    hex_run(b, 0, 4) + seq!['-'] + hex_run(b, 4, 6) + seq!['-'] + hex_run(b, 6, 8) + seq!['-']
        + hex_run(b, 8, 10) + seq!['-'] + hex_run(b, 10, 16)
}

proof fn lemma_le_bytes_len(h: nat, n: nat)
    ensures
        le_bytes(h, n).len() == n,
    decreases n,
{
    if n > 0 {
        lemma_le_bytes_len(h / 256, (n - 1) as nat);
    }
}

fn push_le_bytes(out: &mut Vec<u8>, h: u64)
    ensures
        final(out)@ == old(out)@ + le_bytes(h as nat, 8),
{
    let mut rest = h;
    let mut k: usize = 0;
    while k < 8
        invariant
            k <= 8,
            old(out)@ + le_bytes(h as nat, 8) == out@ + le_bytes(rest as nat, (8 - k) as nat),
        decreases 8 - k,
    {
        let ghost before = out@;
        out.push((rest % 256) as u8);
        assert(le_bytes(rest as nat, (8 - k) as nat) == seq![(rest % 256) as u8] + le_bytes((rest / 256) as nat, (8 - k - 1) as nat));
        assert(out@ + le_bytes((rest / 256) as nat, (8 - k - 1) as nat) =~= before + le_bytes(rest as nat, (8 - k) as nat));
        rest = rest / 256;
        k = k + 1;
    }
    assert(out@ + le_bytes(rest as nat, 0) =~= out@);
}

fn push_hex_run(out: &mut Vec<char>, bs: &Vec<u8>, from: usize, to: usize)
    requires
        from <= to <= bs.len(),
    ensures
        final(out)@ == old(out)@ + hex_run(bs@, from as int, to as int),
{
    let mut k = from;
    assert(hex_run(bs@, from as int, from as int) =~= Seq::<char>::empty());
    while k < to
        invariant
            from <= k <= to <= bs.len(),
            out@ == old(out)@ + hex_run(bs@, from as int, k as int),
        decreases to - k,
    {
        let b = bs[k];
        out.push(hex((b / 16) as u32));
        out.push(hex((b % 16) as u32));
        k = k + 1;
        assert(out@ =~= old(out)@ + hex_run(bs@, from as int, k as int));
    }
}

/// The UUID text for the random halves `h1` and `h2`.
pub fn format_uuid_v4(h1: u64, h2: u64) -> (r: String)
    ensures
        r@ == uuid_text(h1, h2),
{
    let mut bytes: Vec<u8> = Vec::new();
    push_le_bytes(&mut bytes, h1);
    push_le_bytes(&mut bytes, h2);
    proof {
        lemma_le_bytes_len(h1 as nat, 8);
        lemma_le_bytes_len(h2 as nat, 8);
    }
    let b6 = (bytes[6] & 0x0F) | 0x40;
    bytes.set(6, b6);
    let b8 = (bytes[8] & 0x3F) | 0x80;
    bytes.set(8, b8);
    assert(bytes@ =~= uuid_bytes(h1, h2));
    let mut out: Vec<char> = Vec::new();
    push_hex_run(&mut out, &bytes, 0, 4);
    out.push('-');
    push_hex_run(&mut out, &bytes, 4, 6);
    out.push('-');
    push_hex_run(&mut out, &bytes, 6, 8);
    out.push('-');
    push_hex_run(&mut out, &bytes, 8, 10);
    out.push('-');
    push_hex_run(&mut out, &bytes, 10, 16);
    assert(out@ =~= uuid_text(h1, h2));
    string_from_chars(&out)
}

proof fn lemma_hex_run_len(bs: Seq<u8>, from: int, to: int)
    requires
        from <= to,
    ensures
        hex_run(bs, from, to).len() == 2 * (to - from),
        forall|k: int| from <= k < to ==> hex_run(bs, from, to)[2 * (k - from)] == hex_digit((bs[k] / 16) as nat),
        forall|k: int| from <= k < to ==> hex_run(bs, from, to)[2 * (k - from) + 1] == hex_digit((bs[k] % 16) as nat),
    decreases to - from,
{
    if to > from {
        lemma_hex_run_len(bs, from, to - 1);
    }
}

/// A lower-case hex digit.
pub open spec fn is_lower_hex(c: char) -> bool {
    ('0' <= c && c <= '9') || ('a' <= c && c <= 'f')
}

proof fn lemma_hex_run_digits(bs: Seq<u8>, from: int, to: int)
    requires
        from <= to,
    ensures
        forall|m: int| 0 <= m < hex_run(bs, from, to).len() ==> is_lower_hex(#[trigger] hex_run(bs, from, to)[m]),
    decreases to - from,
{
    if to > from {
        lemma_hex_run_digits(bs, from, to - 1);
        lemma_hex_run_len(bs, from, to - 1);
        let a = hex_run(bs, from, to - 1);
        let h = hex_byte(bs[to - 1]);
        assert(is_lower_hex(h[0]) && is_lower_hex(h[1]));
        assert forall|m: int| 0 <= m < (a + h).len() implies is_lower_hex(#[trigger] (a + h)[m]) by {
            if m < a.len() {
                assert((a + h)[m] == a[m]);
            } else {
                assert((a + h)[m] == h[m - a.len()]);
            }
        }
    }
}

/// Every such UUID is a version-4, RFC 4122 one: 36 characters, `-` at
/// places 8, 13, 18 and 23 and a lower-case hex digit everywhere else, `4`
/// at place 14, and one of `8`, `9`, `a`, `b` at place 19.
pub proof fn lemma_uuid_v4_shape(h1: u64, h2: u64)
    ensures
        uuid_text(h1, h2).len() == 36,
        uuid_text(h1, h2)[8] == '-',
        uuid_text(h1, h2)[13] == '-',
        uuid_text(h1, h2)[18] == '-',
        uuid_text(h1, h2)[23] == '-',
        uuid_text(h1, h2)[14] == '4',
        uuid_text(h1, h2)[19] == '8' || uuid_text(h1, h2)[19] == '9' || uuid_text(h1, h2)[19] == 'a'
            || uuid_text(h1, h2)[19] == 'b',
        forall|i: int| 0 <= i < 36 && i != 8 && i != 13 && i != 18 && i != 23 ==> is_lower_hex(#[trigger] uuid_text(h1, h2)[i]),
{
    let b = uuid_bytes(h1, h2);
    let raw = le_bytes(h1 as nat, 8) + le_bytes(h2 as nat, 8);
    lemma_le_bytes_len(h1 as nat, 8);
    lemma_le_bytes_len(h2 as nat, 8);
    lemma_hex_run_len(b, 0, 4);
    lemma_hex_run_len(b, 4, 6);
    lemma_hex_run_len(b, 6, 8);
    lemma_hex_run_len(b, 8, 10);
    lemma_hex_run_len(b, 10, 16);
    let x6 = raw[6];
    let x8 = raw[8];
    assert(((x6 & 0x0F) | 0x40) / 16 == 4) by (bit_vector);
    assert(8 <= ((x8 & 0x3F) | 0x80) / 16 <= 11) by (bit_vector);
    assert(b[6] == (x6 & 0x0F) | 0x40);
    assert(b[8] == (x8 & 0x3F) | 0x80);
    lemma_hex_run_digits(b, 0, 4);
    lemma_hex_run_digits(b, 4, 6);
    lemma_hex_run_digits(b, 6, 8);
    lemma_hex_run_digits(b, 8, 10);
    lemma_hex_run_digits(b, 10, 16);
    let t = uuid_text(h1, h2);
    let r0 = hex_run(b, 0, 4);
    let r1 = hex_run(b, 4, 6);
    let r2 = hex_run(b, 6, 8);
    let r3 = hex_run(b, 8, 10);
    let r4 = hex_run(b, 10, 16);
    assert forall|i: int| 0 <= i < 36 && i != 8 && i != 13 && i != 18 && i != 23 implies is_lower_hex(#[trigger] t[i]) by {
        if i < 8 {
            assert(t[i] == r0[i]);
        } else if i < 13 {
            assert(t[i] == r1[i - 9]);
        } else if i < 18 {
            assert(t[i] == r2[i - 14]);
        } else if i < 23 {
            assert(t[i] == r3[i - 19]);
        } else {
            assert(t[i] == r4[i - 24]);
        }
    }
}

} // verus!
