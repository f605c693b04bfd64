//! The OS version and security patch level that a boot image header packs
//! into one `u32`.
//!
//! From the most significant bit down: 7 bits each of the major, minor and
//! patch version, 7 bits of the year minus 2000, 4 bits of the month.
use vstd::prelude::*;
use crate::text::{
    decimal, is_dec_char, is_numeral_of, lemma_decimal_is_numeral, lemma_numeral_leading_zeros,
    lemma_zero_padded, numeral_value, push_decimal, push_decimal_padded, zero_padded,
};

verus! {

/// An OS version `major.minor.patch`.
#[derive(Clone, Copy, Debug, PartialEq, Eq, Structural)]
pub struct OsVersion {
    pub major: u8,
    pub minor: u8,
    pub patch: u8,
}

/// A security patch level `year-month`.
#[derive(Clone, Copy, Debug, PartialEq, Eq, Structural)]
pub struct OsPatch {
    pub year: u16,
    pub month: u8,
}

/// The packed `os_version` field of a boot image header.
#[derive(Clone, Copy, Debug, PartialEq, Eq, Structural)]
pub struct OsVersionPatch(pub u32);

/// The version that the packed value `x` holds.
pub open spec fn unpack_version(x: u32) -> OsVersion {
    OsVersion {
        major: ((x >> 25u32) & 0x7f) as u8,
        minor: ((x >> 18u32) & 0x7f) as u8,
        patch: ((x >> 11u32) & 0x7f) as u8,
    }
}

/// The patch level that the packed value `x` holds.
pub open spec fn unpack_patch(x: u32) -> OsPatch {
    OsPatch { year: (2000 + ((x >> 4u32) & 0x7f)) as u16, month: (x & 0xf) as u8 }
}

/// Whether `v` and `p` fit the packed layout.
pub open spec fn packable(v: OsVersion, p: OsPatch) -> bool {
    &&& v.major < 128
    &&& v.minor < 128
    &&& v.patch < 128
    &&& 2000 <= p.year < 2128
    &&& p.month < 16
}

/// The packed value of `v` and `p` (when `packable(v, p)`).
pub open spec fn pack(v: OsVersion, p: OsPatch) -> u32 {
    ((v.major as u32) << 25u32) | ((v.minor as u32) << 18u32) | ((v.patch as u32) << 11u32) | (((
    p.year - 2000) as u32) << 4u32) | (p.month as u32)
}

/// "major.minor.patch" in decimal.
pub open spec fn version_text(v: OsVersion) -> Seq<u8> {
    decimal(v.major as nat) + seq![46u8] + decimal(v.minor as nat) + seq![46u8] + decimal(
        v.patch as nat,
    )
}

/// "year-month", the year in at least four digits and the month in at least two.
pub open spec fn patch_text(p: OsPatch) -> Seq<u8> {
    zero_padded(decimal(p.year as nat), 4) + seq![45u8] + zero_padded(decimal(p.month as nat), 2)
}

impl OsVersionPatch {
    /// The OS version.
    pub fn version(&self) -> (v: OsVersion)
        ensures
            v == unpack_version(self.0),
    {
        let x = self.0;
        OsVersion {
            major: ((x >> 25u32) & 0x7f) as u8,
            minor: ((x >> 18u32) & 0x7f) as u8,
            patch: ((x >> 11u32) & 0x7f) as u8,
        }
    }

    /// The security patch level.
    pub fn patch(&self) -> (p: OsPatch)
        ensures
            p == unpack_patch(self.0),
    {
        let x = self.0;
        let y: u32 = (x >> 4u32) & 0x7f;
        proof {
            assert(((x >> 4u32) & 0x7f) <= 0x7f) by (bit_vector);
        }
        OsPatch { year: (2000 + y) as u16, month: (x & 0xf) as u8 }
    }

    /// Packs a version and a patch level; `None` where a part does not fit
    /// its bits.
    pub fn new(version: OsVersion, patch: OsPatch) -> (r: Option<OsVersionPatch>)
        ensures
            r is Some <==> packable(version, patch),
            r matches Some(x) ==> x.0 == pack(version, patch),
    {
        if version.major < 128 && version.minor < 128 && version.patch < 128 && 2000 <= patch.year
            && patch.year < 2128 && patch.month < 16 {
            let y: u32 = (patch.year - 2000) as u32;
            Some(
                OsVersionPatch(
                    ((version.major as u32) << 25u32) | ((version.minor as u32) << 18u32) | ((
                    version.patch as u32) << 11u32) | (y << 4u32) | (patch.month as u32),
                ),
            )
        } else {
            None
        }
    }
}

impl OsVersion {
    /// `version_text(self)`: the text `unpack_bootimg` prints.
    pub fn render(&self) -> (r: Vec<u8>)
        ensures
            r@ == version_text(*self),
    {
        let mut out: Vec<u8> = Vec::new();
        push_decimal(&mut out, self.major as u64);
        out.push(46u8);
        push_decimal(&mut out, self.minor as u64);
        out.push(46u8);
        push_decimal(&mut out, self.patch as u64);
        proof {
            assert(out@ =~= version_text(*self));
        }
        out
    }
}

impl OsPatch {
    /// `patch_text(self)`: the text `unpack_bootimg` prints.
    pub fn render(&self) -> (r: Vec<u8>)
        ensures
            r@ == patch_text(*self),
    {
        let mut out: Vec<u8> = Vec::new();
        push_decimal_padded(&mut out, self.year as u64, 4);
        out.push(45u8);
        push_decimal_padded(&mut out, self.month as u64, 2);
        proof {
            assert(out@ =~= patch_text(*self));
        }
        out
    }
}

/// Every packed value is the packing of the version and patch level it holds:
/// unpacking loses nothing.
pub proof fn lemma_unpack_pack(x: u32)
    ensures
        packable(unpack_version(x), unpack_patch(x)),
        pack(unpack_version(x), unpack_patch(x)) == x,
{
    let a: u32 = (x >> 25u32) & 0x7f;
    let b: u32 = (x >> 18u32) & 0x7f;
    let c: u32 = (x >> 11u32) & 0x7f;
    let y: u32 = (x >> 4u32) & 0x7f;
    let m: u32 = x & 0xf;
    assert(a < 128 && b < 128 && c < 128 && y < 128 && m < 16) by (bit_vector)
        requires
            a == (x >> 25u32) & 0x7f,
            b == (x >> 18u32) & 0x7f,
            c == (x >> 11u32) & 0x7f,
            y == (x >> 4u32) & 0x7f,
            m == x & 0xf,
    ;
    assert((a << 25u32) | (b << 18u32) | (c << 11u32) | (y << 4u32) | m == x) by (bit_vector)
        requires
            a == (x >> 25u32) & 0x7f,
            b == (x >> 18u32) & 0x7f,
            c == (x >> 11u32) & 0x7f,
            y == (x >> 4u32) & 0x7f,
            m == x & 0xf,
    ;
}

/// Packing a version and a patch level that fit, then unpacking, gives them back.
pub proof fn lemma_pack_unpack(v: OsVersion, p: OsPatch)
    requires
        packable(v, p),
    ensures
        unpack_version(pack(v, p)) == v,
        unpack_patch(pack(v, p)) == p,
{
    let a: u32 = v.major as u32;
    let b: u32 = v.minor as u32;
    let c: u32 = v.patch as u32;
    let y: u32 = (p.year - 2000) as u32;
    let m: u32 = p.month as u32;
    let x: u32 = pack(v, p);
    assert(x == (a << 25u32) | (b << 18u32) | (c << 11u32) | (y << 4u32) | m);
    assert((x >> 25u32) & 0x7f == a && (x >> 18u32) & 0x7f == b && (x >> 11u32) & 0x7f == c && (x
        >> 4u32) & 0x7f == y && x & 0xf == m) by (bit_vector)
        requires
            a < 128,
            b < 128,
            c < 128,
            y < 128,
            m < 16,
            x == (a << 25u32) | (b << 18u32) | (c << 11u32) | (y << 4u32) | m,
    ;
}

/// The rendered version is three decimal numerals, worth the major, minor and
/// patch version, separated by dots.
pub proof fn lemma_version_text(v: OsVersion)
    ensures
        exists|a: Seq<u8>, b: Seq<u8>, c: Seq<u8>|
            {
                &&& version_text(v) == a + seq![46u8] + b + seq![46u8] + c
                &&& is_numeral_of(a, v.major as nat)
                &&& is_numeral_of(b, v.minor as nat)
                &&& is_numeral_of(c, v.patch as nat)
            },
{
    lemma_decimal_is_numeral(v.major as nat);
    lemma_decimal_is_numeral(v.minor as nat);
    lemma_decimal_is_numeral(v.patch as nat);
    let a = decimal(v.major as nat);
    let b = decimal(v.minor as nat);
    let c = decimal(v.patch as nat);
    assert(version_text(v) == a + seq![46u8] + b + seq![46u8] + c);
}

/// The rendered patch level is the year as a decimal numeral of at least four
/// digits, a dash, and the month as exactly two decimal digits (for a month
/// below 100).
pub proof fn lemma_patch_text(p: OsPatch)
    requires
        p.month < 100,
    ensures
        patch_text(p).len() >= 7,
        patch_text(p)[patch_text(p).len() - 3] == 45,
        patch_text(p)[patch_text(p).len() - 2] == 48 + p.month / 10,
        patch_text(p)[patch_text(p).len() - 1] == 48 + p.month % 10,
        ({
            let y = patch_text(p).subrange(0, patch_text(p).len() - 3);
            &&& y.len() >= 4
            &&& forall|i: int| 0 <= i < y.len() ==> is_dec_char(#[trigger] y[i])
            &&& numeral_value(y) == p.year
            &&& (y.len() > 4 ==> y[0] != 48)
        }),
{
    let d = decimal(p.year as nat);
    lemma_decimal_is_numeral(p.year as nat);
    lemma_zero_padded(d, 4);
    let y = zero_padded(d, 4);
    let m = p.month as nat;
    let md = zero_padded(decimal(m), 2);
    if m < 10 {
        assert(decimal(m) =~= seq![(48 + m) as u8]);
        assert(md =~= seq![48u8, (48 + m) as u8]);
    } else {
        assert(decimal(m / 10) =~= seq![(48 + m / 10) as u8]);
        assert(decimal(m) =~= seq![(48 + m / 10) as u8, (48 + m % 10) as u8]);
        assert(md =~= seq![(48 + m / 10) as u8, (48 + m % 10) as u8]);
    }
    let t = patch_text(p);
    assert(t == y + seq![45u8] + md);
    assert(t.subrange(0, t.len() - 3) =~= y);
    let z = y.subrange(0, y.len() - d.len());
    assert(y =~= z + d);
    lemma_numeral_leading_zeros(z, d);
    assert forall|i: int| 0 <= i < y.len() implies is_dec_char(#[trigger] y[i]) by {
        if i >= y.len() - d.len() {
            assert(y[i] == d[i - (y.len() - d.len())]);
        }
    }
    if y.len() > 4 {
        assert(y =~= d);
    }
}

/// Where each part sits in the packed value, as arithmetic: the major version
/// is the top seven bits, then the minor and the patch version, then the year
/// counted from 2000, and the month in the low four bits.
pub proof fn lemma_unpack_positions(x: u32)
    ensures
        unpack_version(x).major == x / 33554432,
        unpack_version(x).minor == x / 262144 % 128,
        unpack_version(x).patch == x / 2048 % 128,
        unpack_patch(x).year == 2000 + x / 16 % 128,
        unpack_patch(x).month == x % 16,
{
    assert((x >> 25u32) & 0x7f == x / 33554432) by (bit_vector);
    assert((x >> 18u32) & 0x7f == x / 262144 % 128) by (bit_vector);
    assert((x >> 11u32) & 0x7f == x / 2048 % 128) by (bit_vector);
    assert((x >> 4u32) & 0x7f == x / 16 % 128) by (bit_vector);
    assert(x & 0xf == x % 16) by (bit_vector);
}

} // verus!
