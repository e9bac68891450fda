//! Plain-text building blocks for the converters' output: lowercase
//! hexadecimal and decimal renderings of integers, and byte appends.

use vstd::prelude::*;

verus! {

/// The ASCII character of a digit below 16, lowercase for 10 to 15.
pub open spec fn digit_char(d: nat) -> u8 {
    if d < 10 {
        (0x30 + d) as u8
    } else {
        (0x61 + d - 10) as u8
    }
}

/// `n` written in base `b` (2 to 16), most significant digit first,
/// without leading zeros (`0` is one digit).
pub open spec fn base_text(n: nat, b: nat) -> Seq<u8>
    decreases n,
{
    if b < 2 || n < b {
        seq![digit_char(n % 16)]
    } else {
        proof {
            assert(n / b < n) by (nonlinear_arith)
                requires
                    n >= b,
                    b >= 2,
            ;
        }
        base_text(n / b, b) + seq![digit_char(n % b)]
    }
}

/// `n` in lowercase hexadecimal, as `{:x}` prints it.
pub open spec fn hex_text(n: nat) -> Seq<u8> {
    base_text(n, 16)
}

/// `n` in decimal, as `{}` prints it.
pub open spec fn dec_text(n: nat) -> Seq<u8> {
    base_text(n, 10)
}

/// The bytes of a text, as UTF-8.
pub open spec fn utf8(s: Seq<char>) -> Seq<u8> {
    vstd::utf8::encode_utf8(s)
}

proof fn lemma_base_text_step(n: nat, b: nat)
    requires
        2 <= b <= 16,
    ensures
        n < b ==> base_text(n, b) == seq![digit_char(n)],
        n >= b ==> base_text(n, b) == base_text(n / b, b) + seq![digit_char(n % b)],
{
}

/// Appends `v` written in base `b` to `out`.
fn push_base(out: &mut Vec<u8>, v: u64, b: u64)
    requires
        2 <= b <= 16,
    ensures
        final(out)@ == old(out)@ + base_text(v as nat, b as nat),
{
    // Digits are produced least significant first, then reversed.
    let mut digits: Vec<u8> = Vec::new();
    let mut n: u64 = v;
    let ghost mut parts: Seq<u8> = Seq::empty();
    while n >= b
        invariant
            2 <= b <= 16,
            base_text(v as nat, b as nat) == base_text(n as nat, b as nat) + parts,
            digits@ == parts.reverse(),
        decreases n,
    {
        let d = n % b;
        proof {
            lemma_base_text_step(n as nat, b as nat);
        }
        digits.push(if d < 10 { 0x30 + d as u8 } else { 0x61 + (d as u8 - 10) });
        proof {
            let p2 = seq![digit_char(d as nat)] + parts;
            assert(base_text(n as nat, b as nat) + parts =~= base_text((n / b) as nat, b as nat) + p2);
            assert(digits@ =~= p2.reverse());
            parts = p2;
        }
        n = n / b;
    }
    proof {
        lemma_base_text_step(n as nat, b as nat);
    }
    digits.push(if n < 10 { 0x30 + n as u8 } else { 0x61 + (n as u8 - 10) });
    proof {
        let p2 = seq![digit_char(n as nat)] + parts;
        assert(digits@ =~= p2.reverse());
        parts = p2;
        assert(parts.reverse().reverse() =~= parts);
    }
    assert(digits@.reverse() =~= base_text(v as nat, b as nat));
    let len = digits.len();
    let ghost start = out@;
    let mut i: usize = len;
    while i > 0
        invariant
            i <= len,
            len == digits@.len(),
            out@ == start + digits@.reverse().subrange(0, (len - i) as int),
        decreases i,
    {
        i = i - 1;
        out.push(digits[i]);
        proof {
            assert(digits@.reverse().subrange(0, (len - i) as int) =~= digits@.reverse().subrange(
                0,
                (len - i - 1) as int,
            ).push(digits@[i as int]));
        }
    }
    assert(digits@.reverse().subrange(0, len as int) =~= digits@.reverse());
}

/// Appends `v` in lowercase hexadecimal to `out`.
pub fn push_hex(out: &mut Vec<u8>, v: u64)
    ensures
        final(out)@ == old(out)@ + hex_text(v as nat),
{
    push_base(out, v, 16);
}

/// Appends `v` in decimal to `out`.
pub fn push_dec(out: &mut Vec<u8>, v: u64)
    ensures
        final(out)@ == old(out)@ + dec_text(v as nat),
{
    push_base(out, v, 10);
}

/// Appends `bytes` to `out`.
pub fn push_all(out: &mut Vec<u8>, bytes: &[u8])
    ensures
        final(out)@ == old(out)@ + bytes@,
{
    let ghost start = out@;
    let mut i: usize = 0;
    while i < bytes.len()
        invariant
            i <= bytes@.len(),
            out@ == start + bytes@.subrange(0, i as int),
        decreases bytes@.len() - i,
    {
        out.push(bytes[i]);
        i = i + 1;
        proof {
            assert(bytes@.subrange(0, i as int) =~= bytes@.subrange(0, i - 1).push(bytes@[i - 1]));
        }
    }
    assert(bytes@.subrange(0, bytes@.len() as int) =~= bytes@);
}

/// Appends the UTF-8 bytes of `s` to `out`.
pub fn push_str(out: &mut Vec<u8>, s: &str)
    ensures
        final(out)@ == old(out)@ + utf8(s@),
{
    push_all(out, s.as_bytes());
}

/// `s` with every byte `from` replaced by `to`.
pub open spec fn replace_byte(s: Seq<u8>, from: u8, to: u8) -> Seq<u8> {
    s.map_values(|c: u8| if c == from { to } else { c })
}

/// Appends the UTF-8 bytes of `s` to `out`, with each byte `from`
/// replaced by `to`.
pub fn push_str_replacing(out: &mut Vec<u8>, s: &str, from: u8, to: u8)
    ensures
        final(out)@ == old(out)@ + replace_byte(utf8(s@), from, to),
{
    let bytes = s.as_bytes();
    let ghost start = out@;
    let mut i: usize = 0;
    while i < bytes.len()
        invariant
            i <= bytes@.len(),
            bytes@ == utf8(s@),
            out@ == start + replace_byte(bytes@.subrange(0, i as int), from, to),
        decreases bytes@.len() - i,
    {
        let c = bytes[i];
        out.push(if c == from { to } else { c });
        i = i + 1;
        proof {
            assert(replace_byte(bytes@.subrange(0, i as int), from, to) =~= replace_byte(
                bytes@.subrange(0, i - 1),
                from,
                to,
            ).push(if c == from { to } else { c }));
        }
    }
    assert(bytes@.subrange(0, bytes@.len() as int) =~= bytes@);
}

/// The ASCII character of a digit below 16, uppercase for 10 to 15.
pub open spec fn upper_digit_char(d: nat) -> u8 {
    if d < 10 {
        (0x30 + d) as u8
    } else {
        (0x41 + d - 10) as u8
    }
}

/// `n` in uppercase hexadecimal with 16 digits, as `{:016X}` prints a
/// `u64`: digit `i` is bits `60 - 4i` to `63 - 4i`.
pub open spec fn hex16_upper_text(n: u64) -> Seq<u8> {
    Seq::new(16, |i: int| upper_digit_char(((n >> ((60 - 4 * i) as u64)) & 0xF) as nat))
}

/// Appends `v` in uppercase hexadecimal, 16 digits, to `out`.
pub fn push_hex16_upper(out: &mut Vec<u8>, v: u64)
    ensures
        final(out)@ == old(out)@ + hex16_upper_text(v),
{
    let ghost start = out@;
    let mut i: u64 = 0;
    while i < 16
        invariant
            i <= 16,
            out@ == start + hex16_upper_text(v).take(i as int),
        decreases 16 - i,
    {
        let shift: u64 = 60 - 4 * i;
        let d = (v >> shift) & 0xF;
        assert(d < 16) by (bit_vector)
            requires
                d == (v >> shift) & 0xF,
        ;
        let c: u8 = if d < 10 { 0x30 + d as u8 } else { 0x41 + (d as u8 - 10) };
        out.push(c);
        proof {
            assert(hex16_upper_text(v)[i as int] == c);
            assert(hex16_upper_text(v).take(i + 1) =~= hex16_upper_text(v).take(i as int).push(c));
        }
        i = i + 1;
    }
    assert(hex16_upper_text(v).take(16) =~= hex16_upper_text(v));
}

/// Appends `v` in decimal, right-aligned in a field of 3 characters
/// (as `{:3}` prints it), to `out`.
pub fn push_dec_width3(out: &mut Vec<u8>, v: u64)
    ensures
        final(out)@ == old(out)@ + pad3(dec_text(v as nat)),
{
    let ghost start = out@;
    let mut digits: Vec<u8> = Vec::new();
    push_dec(&mut digits, v);
    let mut k: usize = digits.len();
    while k < 3
        invariant
            digits@ == dec_text(v as nat),
            digits@.len() <= k <= 3 || (k == digits@.len() && k >= 3),
            out@ == start + Seq::new((k - digits@.len()) as nat, |i: int| 0x20u8),
        decreases 3 - k,
    {
        out.push(0x20);
        proof {
            assert(Seq::new((k + 1 - digits@.len()) as nat, |i: int| 0x20u8) =~= Seq::new(
                (k - digits@.len()) as nat,
                |i: int| 0x20u8,
            ).push(0x20));
        }
        k = k + 1;
    }
    push_all(out, digits.as_slice());
    assert(out@ =~= start + pad3(dec_text(v as nat)));
}

/// `t` preceded by spaces up to a width of 3.
pub open spec fn pad3(t: Seq<u8>) -> Seq<u8> {
    if t.len() < 3 {
        Seq::new((3 - t.len()) as nat, |i: int| 0x20u8) + t
    } else {
        t
    }
}

} // verus!
