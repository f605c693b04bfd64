//! Decimal and hexadecimal renderings of numbers and bytes, as the
//! `{}`, `{:02}`, `{:08x}` and `{:016x}` formats of Rust and the `HexFmt`
//! display of the `hex_fmt` crate write them.
use vstd::prelude::*;
use vstd::string::StringSliceAdditionalSpecFns;

verus! {

/// ASCII for the decimal digit `d` (`d < 10`).
pub open spec fn dec_digit(d: nat) -> u8 {
    (48 + d) as u8
}

/// ASCII for the lowercase hexadecimal digit `d` (`d < 16`).
pub open spec fn hex_digit(d: nat) -> u8 {
    if d < 10 {
        (48 + d) as u8
    } else {
        (87 + d) as u8
    }
}

/// `n` in decimal, without leading zeros (`0` is "0").
pub open spec fn decimal(n: nat) -> Seq<u8>
    decreases n,
{
    if n < 10 {
        seq![dec_digit(n)]
    } else {
        decimal(n / 10).push(dec_digit(n % 10))
    }
}

/// `s` with `'0'` bytes put in front until it is `width` long.
pub open spec fn zero_padded(s: Seq<u8>, width: nat) -> Seq<u8> {
    if s.len() < width {
        Seq::new((width - s.len()) as nat, |i: int| 48u8) + s
    } else {
        s
    }
}

/// The last `width` hexadecimal digits of `n`, lowercase, most significant
/// first.
pub open spec fn hex_fixed(n: nat, width: nat) -> Seq<u8>
    decreases width,
{
    if width == 0 {
        Seq::empty()
    } else {
        hex_fixed(n / 16, (width - 1) as nat).push(hex_digit(n % 16))
    }
}

/// Each byte of `s` as two lowercase hexadecimal digits.
pub open spec fn hex_bytes(s: Seq<u8>) -> Seq<u8>
    decreases s.len(),
{
    if s.len() == 0 {
        Seq::empty()
    } else {
        hex_bytes(s.drop_last()) + seq![hex_digit(s.last() as nat / 16), hex_digit(s.last() as nat % 16)]
    }
}

/// "0x" followed by eight hexadecimal digits: the `0x{:08x}` of a `u32`.
pub open spec fn hex32(n: u32) -> Seq<u8> {
    seq![48u8, 120u8] + hex_fixed(n as nat, 8)
}

/// "0x" followed by sixteen hexadecimal digits: the `0x{:016x}` of a `u64`.
pub open spec fn hex64(n: u64) -> Seq<u8> {
    seq![48u8, 120u8] + hex_fixed(n as nat, 16)
}

/// Every digit of `decimal(n)` is an ASCII digit and there is at least one.
pub proof fn lemma_decimal_digits(n: nat)
    ensures
        decimal(n).len() >= 1,
        forall|i: int| 0 <= i < decimal(n).len() ==> 48 <= #[trigger] decimal(n)[i] <= 57,
    decreases n,
{
    if n >= 10 {
        lemma_decimal_digits(n / 10);
    }
}

/// `hex_fixed(n, width)` has exactly `width` digits.
pub proof fn lemma_hex_fixed_len(n: nat, width: nat)
    ensures
        hex_fixed(n, width).len() == width,
    decreases width,
{
    if width > 0 {
        lemma_hex_fixed_len(n / 16, (width - 1) as nat);
    }
}

/// Appends `decimal(n)` to `out`.
pub fn push_decimal(out: &mut Vec<u8>, n: u64)
    ensures
        final(out)@ == old(out)@ + decimal(n as nat),
    decreases n,
{
    if n >= 10 {
        push_decimal(out, n / 10);
    }
    let d: u64 = n % 10;
    out.push((48 + d) as u8);
    proof {
        assert(out@ =~= old(out)@ + decimal(n as nat));
    }
}

/// Appends `zero_padded(decimal(n), width)` to `out`: the `{:0width$}` of `n`.
pub fn push_decimal_padded(out: &mut Vec<u8>, n: u64, width: usize)
    ensures
        final(out)@ == old(out)@ + zero_padded(decimal(n as nat), width as nat),
{
    let mut digits: Vec<u8> = Vec::new();
    push_decimal(&mut digits, n);
    let mut k: usize = digits.len();
    let ghost start = out@;
    while k < width
        invariant
            digits@ == decimal(n as nat),
            digits@.len() <= k <= width || (k == digits@.len() && k >= width),
            out@ == start + Seq::new((k - digits@.len()) as nat, |i: int| 48u8),
        decreases width - k,
    {
        out.push(48u8);
        k = k + 1;
        proof {
            assert(out@ =~= start + Seq::new((k - digits@.len()) as nat, |i: int| 48u8));
        }
    }
    push_bytes(out, &digits);
    assert(out@ =~= old(out)@ + zero_padded(decimal(n as nat), width as nat));
}

/// Appends `hex_fixed(n, width)` to `out`.
pub fn push_hex_fixed(out: &mut Vec<u8>, n: u64, width: usize)
    ensures
        final(out)@ == old(out)@ + hex_fixed(n as nat, width as nat),
    decreases width,
{
    if width > 0 {
        push_hex_fixed(out, n / 16, width - 1);
        let d: u64 = n % 16;
        if d < 10 {
            out.push((48 + d) as u8);
        } else {
            out.push((87 + d) as u8);
        }
        proof {
            assert(out@ =~= old(out)@ + hex_fixed(n as nat, width as nat));
        }
    } else {
        proof {
            assert(out@ =~= old(out)@ + hex_fixed(n as nat, width as nat));
        }
    }
}

/// Appends `hex32(n)` to `out`.
pub fn push_hex32(out: &mut Vec<u8>, n: u32)
    ensures
        final(out)@ == old(out)@ + hex32(n),
{
    out.push(48u8);
    out.push(120u8);
    push_hex_fixed(out, n as u64, 8);
    proof {
        assert(out@ =~= old(out)@ + hex32(n));
    }
}

/// Appends `hex64(n)` to `out`.
pub fn push_hex64(out: &mut Vec<u8>, n: u64)
    ensures
        final(out)@ == old(out)@ + hex64(n),
{
    out.push(48u8);
    out.push(120u8);
    push_hex_fixed(out, n, 16);
    proof {
        assert(out@ =~= old(out)@ + hex64(n));
    }
}

/// Appends the bytes of `s` to `out`.
pub fn push_bytes(out: &mut Vec<u8>, s: &[u8])
    ensures
        final(out)@ == old(out)@ + s@,
{
    let mut i: usize = 0;
    while i < s.len()
        invariant
            i <= s.len(),
            out@ == old(out)@ + s@.take(i as int),
        decreases s.len() - i,
    {
        out.push(s[i]);
        i = i + 1;
        proof {
            assert(out@ =~= old(out)@ + s@.take(i as int));
        }
    }
    proof {
        assert(s@.take(i as int) =~= s@);
    }
}

/// Appends the bytes of the string `s` to `out`.
pub fn push_str(out: &mut Vec<u8>, s: &str)
    ensures
        final(out)@ == old(out)@ + s.spec_bytes(),
{
    push_bytes(out, s.as_bytes());
}

/// `hex_fmt::HexFmt(bytes)` displayed with `{}`: claims that a format without
/// width or precision writes each byte as two lowercase hexadecimal digits
/// (`{:02x}`), the whole slice unshortened.
#[verifier::external_body]
pub(crate) fn hex_text(bytes: &[u8]) -> (r: Vec<u8>)
    ensures
        r@ == hex_bytes(bytes@),
{
    format!("{}", hex_fmt::HexFmt(bytes)).into_bytes()
}

/// Whether `c` is an ASCII decimal digit.
pub open spec fn is_dec_char(c: u8) -> bool {
    48 <= c <= 57
}

/// The value of the ASCII decimal numeral `s` (most significant digit first).
pub open spec fn numeral_value(s: Seq<u8>) -> nat
    decreases s.len(),
{
    if s.len() == 0 {
        0
    } else {
        numeral_value(s.drop_last()) * 10 + (s.last() - 48) as nat
    }
}

/// `s` is the usual decimal numeral of `n`: digits only, at least one, no
/// leading zero, and worth `n`.
pub open spec fn is_numeral_of(s: Seq<u8>, n: nat) -> bool {
    &&& s.len() >= 1
    &&& forall|i: int| 0 <= i < s.len() ==> is_dec_char(#[trigger] s[i])
    &&& (s.len() > 1 ==> s[0] != 48)
    &&& numeral_value(s) == n
}

/// `decimal(n)` is the usual decimal numeral of `n`.
pub proof fn lemma_decimal_is_numeral(n: nat)
    ensures
        is_numeral_of(decimal(n), n),
    decreases n,
{
    if n >= 10 {
        lemma_decimal_is_numeral(n / 10);
        let p = decimal(n / 10);
        let s = decimal(n);
        assert(s.drop_last() =~= p);
        assert(forall|i: int| 0 <= i < p.len() ==> s[i] == p[i]);
        assert(s[0] == p[0]);
        if n / 10 >= 10 {
            lemma_decimal_digits(n / 100);
            assert(n / 10 / 10 == n / 100);
            assert(p.len() >= 2);
        } else {
            assert(p =~= seq![dec_digit(n / 10)]);
        }
        assert(numeral_value(s) == numeral_value(p) * 10 + n % 10);
        assert(numeral_value(s) == n);
        assert(forall|i: int| 0 <= i < s.len() ==> is_dec_char(#[trigger] s[i]));
        assert(s.len() > 1 ==> s[0] != 48);
    } else {
        let s = decimal(n);
        assert(s.drop_last() =~= Seq::<u8>::empty());
        assert(numeral_value(s.drop_last()) == 0);
        assert(numeral_value(s) == n);
    }
}

/// The value of a hexadecimal digit: 0 to 9 for "0" to "9", 10 to 15 for "a"
/// to "f"; `None` for any other byte.
pub open spec fn hex_char_value(c: u8) -> Option<nat> {
    if 48 <= c <= 57 {
        Some((c - 48) as nat)
    } else if 97 <= c <= 102 {
        Some((c - 87) as nat)
    } else {
        None
    }
}

/// `16` to the power `w`.
pub open spec fn pow16(w: nat) -> nat
    decreases w,
{
    if w == 0 {
        1
    } else {
        16 * pow16((w - 1) as nat)
    }
}

/// The value of the lowercase hexadecimal numeral `s` (most significant digit
/// first), taking any byte that is not a digit as 0.
pub open spec fn hex_numeral_value(s: Seq<u8>) -> nat
    decreases s.len(),
{
    if s.len() == 0 {
        0
    } else {
        hex_numeral_value(s.drop_last()) * 16 + match hex_char_value(s.last()) {
            Some(v) => v,
            None => 0,
        }
    }
}

/// `hex_fixed(n, width)` is `width` lowercase hexadecimal digits worth
/// `n % 16^width`: the digits of `n` itself where `n < 16^width`.
pub proof fn lemma_hex_fixed_is_numeral(n: nat, width: nat)
    ensures
        hex_fixed(n, width).len() == width,
        forall|i: int| 0 <= i < width ==> (#[trigger] hex_char_value(hex_fixed(n, width)[i])) is Some,
        hex_numeral_value(hex_fixed(n, width)) == n % pow16(width),
    decreases width,
{
    if width > 0 {
        let w1 = (width - 1) as nat;
        lemma_hex_fixed_is_numeral(n / 16, w1);
        let p = hex_fixed(n / 16, w1);
        let s = hex_fixed(n, width);
        assert(s.drop_last() =~= p);
        assert(forall|i: int| 0 <= i < w1 ==> s[i] == p[i]);
        assert(hex_char_value(s.last()) == Some(n % 16));
        assert(pow16(w1) > 0) by {
            lemma_pow16_positive(w1);
        }
        vstd::arithmetic::div_mod::lemma_mod_breakdown(n as int, 16, pow16(w1) as int);
        assert(pow16(width) == 16 * pow16(w1));
        assert(hex_numeral_value(s) == (n / 16) % pow16(w1) * 16 + n % 16);
        assert((n / 16) % pow16(w1) * 16 == 16 * ((n / 16) % pow16(w1))) by (nonlinear_arith);
    }
}

/// `16^w` is positive.
pub proof fn lemma_pow16_positive(w: nat)
    ensures
        pow16(w) > 0,
    decreases w,
{
    if w > 0 {
        lemma_pow16_positive((w - 1) as nat);
    }
}

/// `hex32(n)` is "0x" followed by eight lowercase hexadecimal digits worth `n`,
/// and `hex64(m)` is "0x" followed by sixteen worth `m`.
pub proof fn lemma_hex32_hex64(n: u32, m: u64)
    ensures
        hex32(n).len() == 10,
        hex32(n)[0] == 48 && hex32(n)[1] == 120,
        forall|i: int| 2 <= i < 10 ==> (#[trigger] hex_char_value(hex32(n)[i])) is Some,
        hex_numeral_value(hex32(n).subrange(2, 10)) == n,
        hex64(m).len() == 18,
        hex64(m)[0] == 48 && hex64(m)[1] == 120,
        forall|i: int| 2 <= i < 18 ==> (#[trigger] hex_char_value(hex64(m)[i])) is Some,
        hex_numeral_value(hex64(m).subrange(2, 18)) == m,
{
    lemma_hex_fixed_is_numeral(n as nat, 8);
    lemma_hex_fixed_is_numeral(m as nat, 16);
    assert(hex32(n).subrange(2, 10) =~= hex_fixed(n as nat, 8));
    assert(hex64(m).subrange(2, 18) =~= hex_fixed(m as nat, 16));
    assert(forall|i: int| 2 <= i < 10 ==> hex32(n)[i] == hex_fixed(n as nat, 8)[i - 2]);
    assert(forall|i: int| 2 <= i < 18 ==> hex64(m)[i] == hex_fixed(m as nat, 16)[i - 2]);
    reveal_with_fuel(pow16, 17);
    assert(pow16(8) == 4294967296);
    assert(pow16(16) == 18446744073709551616);
    vstd::arithmetic::div_mod::lemma_small_mod(n as nat, pow16(8));
    vstd::arithmetic::div_mod::lemma_small_mod(m as nat, pow16(16));
}

/// `hex_bytes(s)` writes each byte of `s` as two lowercase hexadecimal digits,
/// the high one first: twice as long, and the digits at `2i` and `2i + 1` are
/// worth `s[i]`.
pub proof fn lemma_hex_bytes(s: Seq<u8>)
    ensures
        hex_bytes(s).len() == 2 * s.len(),
        forall|i: int|
            0 <= i < s.len() ==> {
                &&& (#[trigger] hex_char_value(hex_bytes(s)[2 * i])) matches Some(hi)
                &&& hex_char_value(hex_bytes(s)[2 * i + 1]) matches Some(lo)
                &&& hi * 16 + lo == s[i]
            },
    decreases s.len(),
{
    if s.len() > 0 {
        let p = s.drop_last();
        lemma_hex_bytes(p);
        let t = hex_bytes(s);
        let b = s.last() as nat;
        assert(hex_char_value(hex_digit(b / 16)) == Some(b / 16));
        assert(hex_char_value(hex_digit(b % 16)) == Some(b % 16));
        assert forall|i: int| 0 <= i < s.len() implies {
            &&& (#[trigger] hex_char_value(hex_bytes(s)[2 * i])) matches Some(hi)
            &&& hex_char_value(hex_bytes(s)[2 * i + 1]) matches Some(lo)
            &&& hi * 16 + lo == s[i]
        } by {
            if i < p.len() {
                assert(t[2 * i] == hex_bytes(p)[2 * i]);
                assert(t[2 * i + 1] == hex_bytes(p)[2 * i + 1]);
                assert(s[i] == p[i]);
            } else {
                assert(t[2 * i] == hex_digit(b / 16));
                assert(t[2 * i + 1] == hex_digit(b % 16));
            }
        }
    }
}

/// `zero_padded(s, width)` is `s` with `'0'` bytes in front: at least `width`
/// long, ending in `s`, and only zeros before it.
pub proof fn lemma_zero_padded(s: Seq<u8>, width: nat)
    ensures
        zero_padded(s, width).len() == if s.len() < width {
            width
        } else {
            s.len()
        },
        zero_padded(s, width).subrange(zero_padded(s, width).len() - s.len(), zero_padded(s, width).len() as int) == s,
        forall|i: int| 0 <= i < zero_padded(s, width).len() - s.len() ==> #[trigger] zero_padded(s, width)[i] == 48,
{
    let z = zero_padded(s, width);
    assert(z.subrange(z.len() - s.len(), z.len() as int) =~= s);
}

/// Zeros in front of a numeral do not change its value.
pub proof fn lemma_numeral_leading_zeros(z: Seq<u8>, s: Seq<u8>)
    requires
        forall|i: int| 0 <= i < z.len() ==> #[trigger] z[i] == 48,
    ensures
        numeral_value(z + s) == numeral_value(s),
    decreases z.len() + s.len(),
{
    if s.len() == 0 {
        assert(z + s =~= z);
        if z.len() > 0 {
            lemma_numeral_leading_zeros(z.drop_last(), s);
            assert(z.drop_last() + s =~= z.drop_last());
        }
    } else {
        lemma_numeral_leading_zeros(z, s.drop_last());
        assert((z + s).drop_last() =~= z + s.drop_last());
    }
}

} // verus!
