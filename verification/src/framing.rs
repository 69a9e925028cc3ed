use vstd::prelude::*;

verus! {

/// Upper-case hexadecimal digit (ASCII code) of a value below 16.
pub open spec fn hex_upper_digit(n: int) -> u8 {
    if n < 10 {
        (48 + n) as u8
    } else {
        (55 + n) as u8
    }
}

/// Header digit `i` of `len`: the `i`-th of its 16 hexadecimal digits,
/// most significant first.
pub open spec fn header_digit(len: u64, i: int) -> u8 {
    hex_upper_digit(((len >> ((60 - 4 * i) as u64)) & 15u64) as int)
}

/// The 16-byte header that precedes a packet of `len` bytes: `len` in
/// upper-case hexadecimal, zero-padded to 16 digits.
pub open spec fn header_encoding(len: u64) -> Seq<u8> {
    Seq::new(16, |i: int| header_digit(len, i))
}

/// A hexadecimal digit of either case, as ASCII.
pub open spec fn is_hex_digit(b: u8) -> bool {
    (48 <= b <= 57) || (65 <= b <= 70) || (97 <= b <= 102)
}

/// The value of a hexadecimal digit.
pub open spec fn hex_digit_value(b: u8) -> int {
    if b <= 57 {
        b - 48
    } else if b <= 70 {
        b - 55
    } else {
        b - 87
    }
}

/// The value of a string of hexadecimal digits, most significant first.
pub open spec fn hex_value(digits: Seq<u8>) -> nat
    decreases digits.len(),
{
    if digits.len() == 0 {
        0
    } else {
        (hex_value(digits.drop_last()) * 16 + hex_digit_value(digits.last())) as nat
    }
}

/// The digits of a header: all 16 bytes, or the 15 after a leading `+`.
pub open spec fn header_digits(h: Seq<u8>) -> Seq<u8> {
    if h[0] == 43u8 {
        h.subrange(1, h.len() as int)
    } else {
        h
    }
}

/// A header is read as a length when, after an optional leading `+`,
/// it holds only hexadecimal digits.
pub open spec fn header_valid(h: Seq<u8>) -> bool {
    forall|i: int| 0 <= i < header_digits(h).len() ==> is_hex_digit(#[trigger] header_digits(h)[i])
}

/// `16^n`.
pub open spec fn pow16(n: nat) -> nat
    decreases n,
{
    if n == 0 {
        1
    } else {
        16 * pow16((n - 1) as nat)
    }
}

proof fn lemma_hex_value_bound(digits: Seq<u8>)
    requires
        forall|i: int| 0 <= i < digits.len() ==> is_hex_digit(#[trigger] digits[i]),
    ensures
        hex_value(digits) < pow16(digits.len()),
    decreases digits.len(),
{
    if digits.len() > 0 {
        assert forall|i: int| 0 <= i < digits.drop_last().len() implies is_hex_digit(#[trigger] digits.drop_last()[i]) by {
            assert(digits.drop_last()[i] == digits[i]);
        }
        lemma_hex_value_bound(digits.drop_last());
        assert(is_hex_digit(digits[digits.len() - 1]));
    }
}

/// The header announcing a packet of `len` bytes.
pub fn encode_header(len: u64) -> (h: [u8; 16])
    ensures
        h@ == header_encoding(len),
{
    let mut h: [u8; 16] = [0u8; 16];
    let mut i: usize = 0;
    while i < 16
        invariant
            0 <= i <= 16,
            h@.len() == 16,
            forall|j: int| 0 <= j < i ==> h@[j] == header_digit(len, j),
        decreases 16 - i,
    {
        let shift: u64 = 60 - 4 * (i as u64);
        let d: u64 = (len >> shift) & 15;
        assert(d < 16) by (bit_vector)
            requires
                d == (len >> shift) & 15u64,
        ;
        let c: u8 = if d < 10 {
            48 + d as u8
        } else {
            55 + d as u8
        };
        h[i] = c;
        i = i + 1;
    }
    assert(h@ =~= header_encoding(len));
    h
}

/// Reads the packet length from a header: `None` unless the header holds,
/// after an optional leading `+`, only hexadecimal digits of either case.
pub fn parse_header(header: &[u8; 16]) -> (res: Option<u64>)
    ensures
        res is Some <==> header_valid(header@),
        res matches Some(n) ==> n == hex_value(header_digits(header@)),
{
    let start: usize = if header[0] == 43u8 {
        1
    } else {
        0
    };
    let ghost digits = header_digits(header@);
    assert(digits =~= header@.subrange(start as int, 16));
    let mut value: u64 = 0;
    let mut i: usize = start;
    proof {
        lemma_pow16_mono(0, 16);
        assert(header@.subrange(start as int, start as int) =~= Seq::<u8>::empty());
    }
    while i < 16
        invariant
            start <= i <= 16,
            header@.len() == 16,
            digits == header@.subrange(start as int, 16),
            digits == header_digits(header@),
            forall|j: int| start <= j < i ==> is_hex_digit(#[trigger] header@[j]),
            value == hex_value(header@.subrange(start as int, i as int)),
            value < pow16((i - start) as nat),
            pow16((i - start) as nat) <= pow16(16),
        decreases 16 - i,
    {
        let b = header[i];
        let d: u64 = if 48 <= b && b <= 57 {
            (b - 48) as u64
        } else if 65 <= b && b <= 70 {
            (b - 55) as u64
        } else if 97 <= b && b <= 102 {
            (b - 87) as u64
        } else {
            proof {
                assert(b == header@[i as int]);
                assert(header_digits(header@)[i - start] == b);
                assert(!is_hex_digit(b));
                assert(!header_valid(header@));
            }
            return None;
        };
        proof {
            reveal_with_fuel(pow16, 17);
            assert(header@.subrange(start as int, i + 1).drop_last() =~= header@.subrange(start as int, i as int));
            assert(pow16((i + 1 - start) as nat) == 16 * pow16((i - start) as nat));
            lemma_pow16_mono((i + 1 - start) as nat, 16);
        }
        value = value * 16 + d;
        i = i + 1;
    }
    proof {
        assert forall|j: int| 0 <= j < digits.len() implies is_hex_digit(#[trigger] digits[j]) by {
            assert(digits[j] == header@[j + start]);
        }
    }
    Some(value)
}

proof fn lemma_nibble_bound(x: u64)
    ensures
        x & 15u64 < 16,
{
    assert(x & 15u64 < 16) by (bit_vector);
}

proof fn lemma_shift_step(len: u64, s: u64)
    requires
        s <= 56,
    ensures
        (len >> ((s + 4) as u64)) * 16 + ((len >> s) & 15u64) == len >> s,
{
    assert((len >> ((s + 4) as u64)) * 16 + ((len >> s) & 15u64) == len >> s) by (bit_vector)
        requires
            s <= 56,
    ;
}

proof fn lemma_header_prefix(len: u64, k: int)
    requires
        1 <= k <= 16,
    ensures
        hex_value(header_encoding(len).subrange(0, k)) == len >> ((64 - 4 * k) as u64),
    decreases k,
{
    let enc = header_encoding(len);
    let d = ((len >> ((64 - 4 * k) as u64)) & 15u64) as int;
    lemma_nibble_bound(len >> ((64 - 4 * k) as u64));
    assert(hex_digit_value(hex_upper_digit(d)) == d);
    if k == 1 {
        assert((len >> 60u64) & 15u64 == len >> 60u64) by (bit_vector);
        assert(hex_value(enc.subrange(0, 0)) == 0) by {
            assert(enc.subrange(0, 1).drop_last() =~= enc.subrange(0, 0));
        }
        assert(enc.subrange(0, 1).drop_last() =~= enc.subrange(0, 0));
    } else {
        lemma_header_prefix(len, k - 1);
        assert(enc.subrange(0, k).drop_last() =~= enc.subrange(0, k - 1));
        lemma_shift_step(len, (64 - 4 * k) as u64);
    }
}

/// A header read back gives the length it was written for.
pub proof fn lemma_header_roundtrip(len: u64)
    ensures
        header_valid(header_encoding(len)),
        hex_value(header_digits(header_encoding(len))) == len,
{
    let enc = header_encoding(len);
    lemma_nibble_bound(len >> 60u64);
    assert(enc[0] != 43u8);
    assert(header_digits(enc) == enc);
    assert forall|i: int| 0 <= i < 16 implies is_hex_digit(#[trigger] enc[i]) by {
        lemma_nibble_bound(len >> ((60 - 4 * i) as u64));
    }
    lemma_header_prefix(len, 16);
    assert(enc.subrange(0, 16) =~= enc);
    assert(len >> 0u64 == len) by (bit_vector);
}

proof fn lemma_pow16_mono(a: nat, b: nat)
    requires
        a <= b,
    ensures
        pow16(a) <= pow16(b),
    decreases b,
{
    if a < b {
        lemma_pow16_mono(a, (b - 1) as nat);
    }
}

} // verus!
