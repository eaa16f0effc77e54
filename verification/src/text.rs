//! Byte-level text helpers: ASCII conversions, decimal digit
//! formatting and parsing.
//!
//! The grid renderer and the event store both build and read plain
//! ASCII text; this module gives them a common byte vocabulary and the
//! round-trip facts between a number and its digits.

use vstd::prelude::*;

verus! {

/// The characters of an ASCII byte sequence.
pub open spec fn ascii_chars(s: Seq<u8>) -> Seq<char> {
    Seq::new(s.len(), |i: int| s[i] as char)
}

/// The bytes of an ASCII character sequence.
pub open spec fn ascii_bytes(s: Seq<char>) -> Seq<u8> {
    Seq::new(s.len(), |i: int| s[i] as u8)
}

pub open spec fn all_ascii(s: Seq<u8>) -> bool {
    forall|i: int| 0 <= i < s.len() ==> s[i] < 0x80
}

/// Append a byte slice to a byte vector.
pub fn push_bytes(out: &mut Vec<u8>, b: &[u8])
    ensures
        final(out)@ == old(out)@ + b@,
{
    let mut i: usize = 0;
    while i < b.len()
        invariant
            i <= b@.len(),
            out@ == old(out)@ + b@.subrange(0, i as int),
        decreases b@.len() - i,
    {
        out.push(b[i]);
        proof {
            assert(old(out)@ + b@.subrange(0, i + 1 as int) =~= (old(out)@ + b@.subrange(
                0,
                i as int,
            )).push(b@[i as int]));
        }
        i = i + 1;
    }
    proof {
        assert(b@.subrange(0, b@.len() as int) =~= b@);
    }
}

/// Append the bytes of an ASCII string literal to a byte vector.
pub fn push_str_bytes(out: &mut Vec<u8>, s: &str)
    requires
        s.is_ascii(),
    ensures
        final(out)@ == old(out)@ + ascii_bytes(s@),
{
    broadcast use vstd::string::is_ascii_spec_bytes;

    let b = s.as_bytes();
    proof {
        assert(b@ =~= ascii_bytes(s@));
    }
    push_bytes(out, b);
}

/// The bytes of an ASCII string literal, as a fresh vector.
pub fn str_to_bytes(s: &str) -> (r: Vec<u8>)
    requires
        s.is_ascii(),
    ensures
        r@ == ascii_bytes(s@),
{
    let mut v: Vec<u8> = Vec::new();
    push_str_bytes(&mut v, s);
    v
}

/// Whether two byte slices hold the same bytes.
pub fn bytes_eq(a: &[u8], b: &[u8]) -> (r: bool)
    ensures
        r == (a@ == b@),
{
    if a.len() != b.len() {
        return false;
    }
    let mut i: usize = 0;
    while i < a.len()
        invariant
            i <= a@.len(),
            a@.len() == b@.len(),
            forall|j: int| 0 <= j < i ==> a@[j] == b@[j],
        decreases a@.len() - i,
    {
        if a[i] != b[i] {
            return false;
        }
        i = i + 1;
    }
    proof {
        assert(a@ =~= b@);
    }
    true
}

/// Relies on String::from_utf8_lossy of std: bytes below 0x80 are
/// ASCII, hence valid UTF-8, and decode to the characters with the
/// same code points.
#[verifier::external_body]
pub(crate) fn to_ascii_string(b: &Vec<u8>) -> (r: String)
    requires
        all_ascii(b@),
    ensures
        r@ == ascii_chars(b@),
{
    String::from_utf8_lossy(b.as_slice()).into_owned()
}

pub open spec fn is_digit(b: u8) -> bool {
    0x30 <= b <= 0x39
}

pub open spec fn all_digits(s: Seq<u8>) -> bool {
    forall|i: int| 0 <= i < s.len() ==> is_digit(#[trigger] s[i])
}

pub open spec fn digit_byte(d: int) -> u8 {
    (0x30 + d) as u8
}

/// A number's two low decimal digits, zero padded.
pub open spec fn two_digits(n: int) -> Seq<u8> {
    seq![digit_byte(n / 10 % 10), digit_byte(n % 10)]
}

/// A number's four low decimal digits, zero padded.
pub open spec fn four_digits(n: int) -> Seq<u8> {
    seq![
        digit_byte(n / 1000 % 10),
        digit_byte(n / 100 % 10),
        digit_byte(n / 10 % 10),
        digit_byte(n % 10),
    ]
}

/// A number below 100 in a two-byte cell, right justified with a
/// leading space for one-digit numbers.
pub open spec fn pad2(n: int) -> Seq<u8> {
    if n < 10 {
        seq![0x20, digit_byte(n)]
    } else {
        two_digits(n)
    }
}

/// Append a number right justified in a two-byte cell.
pub fn push_pad2(out: &mut Vec<u8>, n: u8)
    requires
        n < 100,
    ensures
        final(out)@ == old(out)@ + pad2(n as int),
{
    if n < 10 {
        out.push(0x20);
        out.push(0x30 + n);
        proof {
            assert(out@ =~= old(out)@ + pad2(n as int));
        }
    } else {
        push_two_digits(out, n);
    }
}

/// A number up to four digits wide in unpadded decimal.
pub open spec fn dec_bytes(n: int) -> Seq<u8> {
    if n < 10 {
        seq![digit_byte(n)]
    } else if n < 100 {
        seq![digit_byte(n / 10), digit_byte(n % 10)]
    } else if n < 1000 {
        seq![digit_byte(n / 100), digit_byte(n / 10 % 10), digit_byte(n % 10)]
    } else {
        four_digits(n)
    }
}

/// Append a number in unpadded decimal.
pub fn push_dec(out: &mut Vec<u8>, n: u16)
    requires
        n < 10000,
    ensures
        final(out)@ == old(out)@ + dec_bytes(n as int),
{
    if n < 10 {
        out.push(0x30 + n as u8);
        proof {
            assert(out@ =~= old(out)@ + dec_bytes(n as int));
        }
    } else if n < 100 {
        out.push(0x30 + (n / 10) as u8);
        out.push(0x30 + (n % 10) as u8);
        proof {
            assert(out@ =~= old(out)@ + dec_bytes(n as int));
        }
    } else if n < 1000 {
        out.push(0x30 + (n / 100) as u8);
        out.push(0x30 + (n / 10 % 10) as u8);
        out.push(0x30 + (n % 10) as u8);
        proof {
            assert(out@ =~= old(out)@ + dec_bytes(n as int));
        }
    } else {
        push_four_digits(out, n);
    }
}

/// The value of a digit string read as a decimal number.
pub open spec fn digits_val(s: Seq<u8>) -> int
    decreases s.len(),
{
    if s.len() == 0 {
        0
    } else {
        digits_val(s.drop_last()) * 10 + (s.last() - 0x30)
    }
}

pub open spec fn pow10(k: nat) -> int
    decreases k,
{
    if k == 0 {
        1
    } else {
        10 * pow10((k - 1) as nat)
    }
}

pub proof fn lemma_digits_val_bound(s: Seq<u8>)
    requires
        all_digits(s),
    ensures
        0 <= digits_val(s) < pow10(s.len()),
    decreases s.len(),
{
    if s.len() > 0 {
        assert(all_digits(s.drop_last()));
        lemma_digits_val_bound(s.drop_last());
    }
}

/// Writing a number's two low digits and reading them back gives the
/// number modulo 100.
pub proof fn lemma_two_digits_val(n: int)
    requires
        n >= 0,
    ensures
        all_digits(two_digits(n)),
        two_digits(n).len() == 2,
        digits_val(two_digits(n)) == n % 100,
{
    reveal_with_fuel(digits_val, 3);
    let s = two_digits(n);
    assert(s.drop_last() =~= seq![digit_byte(n / 10 % 10)]);
    assert(s.drop_last().drop_last() =~= Seq::<u8>::empty());
    vstd::arithmetic::div_mod::lemma_mod_breakdown(n, 10, 10);
}

/// Writing a number's four low digits and reading them back gives the
/// number modulo 10000.
pub proof fn lemma_four_digits_val(n: int)
    requires
        n >= 0,
    ensures
        all_digits(four_digits(n)),
        four_digits(n).len() == 4,
        digits_val(four_digits(n)) == n % 10000,
{
    reveal_with_fuel(digits_val, 5);
    let s = four_digits(n);
    assert(s.drop_last() =~= seq![
        digit_byte(n / 1000 % 10),
        digit_byte(n / 100 % 10),
        digit_byte(n / 10 % 10),
    ]);
    assert(s.drop_last().drop_last() =~= seq![
        digit_byte(n / 1000 % 10),
        digit_byte(n / 100 % 10),
    ]);
    assert(s.drop_last().drop_last().drop_last() =~= seq![digit_byte(n / 1000 % 10)]);
    assert(s.drop_last().drop_last().drop_last().drop_last() =~= Seq::<u8>::empty());
    vstd::arithmetic::div_mod::lemma_mod_breakdown(n, 10, 10);
    vstd::arithmetic::div_mod::lemma_mod_breakdown(n, 100, 10);
    vstd::arithmetic::div_mod::lemma_mod_breakdown(n, 1000, 10);
    assert(n / 100 / 10 == n / 1000) by {
        vstd::arithmetic::div_mod::lemma_div_denominator(n, 100, 10);
    };
    assert(n / 10 / 10 == n / 100) by {
        vstd::arithmetic::div_mod::lemma_div_denominator(n, 10, 10);
    };
}

/// Append a number's two low decimal digits, zero padded.
pub fn push_two_digits(out: &mut Vec<u8>, n: u8)
    requires
        n < 100,
    ensures
        final(out)@ == old(out)@ + two_digits(n as int),
{
    out.push(0x30 + n / 10);
    out.push(0x30 + n % 10);
    proof {
        assert(n / 10 % 10 == n / 10);
        assert(out@ =~= old(out)@ + two_digits(n as int));
    }
}

/// Append a number's four decimal digits, zero padded.
pub fn push_four_digits(out: &mut Vec<u8>, n: u16)
    requires
        n < 10000,
    ensures
        final(out)@ == old(out)@ + four_digits(n as int),
{
    out.push(0x30 + (n / 1000) as u8);
    out.push(0x30 + (n / 100 % 10) as u8);
    out.push(0x30 + (n / 10 % 10) as u8);
    out.push(0x30 + (n % 10) as u8);
    proof {
        assert(n / 1000 % 10 == n / 1000);
        assert(out@ =~= old(out)@ + four_digits(n as int));
    }
}

/// Read a run of decimal digits as a number; `None` when a byte in the
/// range is not a digit.
pub fn parse_digits(s: &[u8], from: usize, to: usize) -> (r: Option<u32>)
    requires
        from <= to <= s@.len(),
        to - from <= 9,
    ensures
        match r {
            Some(v) => all_digits(s@.subrange(from as int, to as int)) && v == digits_val(
                s@.subrange(from as int, to as int),
            ),
            None => !all_digits(s@.subrange(from as int, to as int)),
        },
{
    let mut i: usize = from;
    let mut acc: u32 = 0;
    while i < to
        invariant
            from <= i <= to <= s@.len(),
            to - from <= 9,
            all_digits(s@.subrange(from as int, i as int)),
            acc == digits_val(s@.subrange(from as int, i as int)),
            acc < pow10((i - from) as nat),
        decreases to - i,
    {
        let b = s[i];
        if b < 0x30 || b > 0x39 {
            proof {
                assert(s@.subrange(from as int, to as int)[i - from] == b);
            }
            return None;
        }
        proof {
            let pre = s@.subrange(from as int, i as int);
            let nxt = s@.subrange(from as int, i + 1 as int);
            assert(nxt.drop_last() =~= pre);
            assert(nxt.last() == b);
            lemma_digits_val_bound(nxt);
            assert(pow10(((i + 1) - from) as nat) <= pow10(9)) by {
                lemma_pow10_le(((i + 1) - from) as nat, 9);
            };
            assert(pow10(9) == 1000000000) by {
                reveal_with_fuel(pow10, 10);
            };
        }
        acc = acc * 10 + (b - 0x30) as u32;
        i = i + 1;
    }
    Some(acc)
}

proof fn lemma_pow10_le(a: nat, b: nat)
    requires
        a <= b,
    ensures
        pow10(a) <= pow10(b),
        pow10(a) >= 1,
    decreases b,
{
    if b > 0 {
        if a == b {
            lemma_pow10_le((a - 1) as nat, (b - 1) as nat);
        } else {
            lemma_pow10_le(a, (b - 1) as nat);
        }
    }
}

} // verus!
