//! The header of a standard Android boot image (`boot.img`, magic `ANDROID!`),
//! in its layouts for header versions 0 to 4.
//!
//! Versions 0, 1 and 2 share one layout that each version extends
//! ([`HeaderV0`]); versions 3 and 4 share another ([`HeaderV3`]). All
//! integers are little-endian.
use vstd::prelude::*;
use crate::version::OsVersionPatch;

verus! {

/// Size of one page of a version 3 or 4 boot image.
pub const V3_PAGE_SIZE: u32 = 4096;

/// The first eight bytes of every boot image: "ANDROID!".
pub open spec fn boot_magic() -> Seq<u8> {
    seq![65u8, 78u8, 68u8, 82u8, 79u8, 73u8, 68u8, 33u8]
}

/// The little-endian `u32` at `off` in `s`.
pub open spec fn le32(s: Seq<u8>, off: int) -> u32 {
    (s[off] as int + s[off + 1] as int * 256 + s[off + 2] as int * 65536 + s[off + 3] as int
        * 16777216) as u32
}

/// The little-endian `u64` at `off` in `s`.
pub open spec fn le64(s: Seq<u8>, off: int) -> u64 {
    (le32(s, off) as int + le32(s, off + 4) as int * 4294967296) as u64
}

/// The length of the header of version `version` (0 to 4).
pub open spec fn header_len(version: u32) -> int {
    if version == 0 {
        1632
    } else if version == 1 {
        1648
    } else if version == 2 {
        1660
    } else if version == 3 {
        1580
    } else {
        1584
    }
}

/// Why bytes are not a boot image header.
#[derive(Clone, Copy, Debug, PartialEq, Eq, Structural)]
pub enum ParseError {
    /// The bytes end before the header does.
    UnexpectedEnd,
    /// The bytes do not start with "ANDROID!".
    BadMagic,
    /// The header version is above 4.
    UnsupportedVersion(u32),
    /// A version 0, 1 or 2 header gives a page size of 0.
    ZeroPageSize,
}

/// The error that parsing `s` gives, or `None` where `s` starts with a header.
pub open spec fn parse_error(s: Seq<u8>) -> Option<ParseError> {
    if s.len() < 8 {
        Some(ParseError::UnexpectedEnd)
    } else if s.subrange(0, 8) != boot_magic() {
        Some(ParseError::BadMagic)
    } else if s.len() < 44 {
        Some(ParseError::UnexpectedEnd)
    } else if le32(s, 40) > 4 {
        Some(ParseError::UnsupportedVersion(le32(s, 40)))
    } else if s.len() < header_len(le32(s, 40)) {
        Some(ParseError::UnexpectedEnd)
    } else if le32(s, 40) <= 2 && le32(s, 36) == 0 {
        Some(ParseError::ZeroPageSize)
    } else {
        None
    }
}

/// The fields that header versions 1 and 2 add to version 0.
#[derive(Clone, Copy, Debug, PartialEq, Eq, Structural)]
pub enum HeaderV0Versioned {
    V0,
    V1 { recovery_dtbo_size: u32, recovery_dtbo_addr: u64 },
    V2 { recovery_dtbo_size: u32, recovery_dtbo_addr: u64, dtb_size: u32, dtb_addr: u64 },
}

/// A header of version 0, 1 or 2.
#[derive(Clone, Copy, Debug)]
pub struct HeaderV0 {
    pub kernel_size: u32,
    pub kernel_addr: u32,
    pub ramdisk_size: u32,
    pub ramdisk_addr: u32,
    pub second_bootloader_size: u32,
    pub second_bootloader_addr: u32,
    pub tags_addr: u32,
    pub page_size: u32,
    pub osversionpatch: OsVersionPatch,
    /// The product name.
    pub board_name: [u8; 16],
    /// The command line (512 bytes) followed by the extra command line (1024 bytes).
    pub cmdline: [u8; 1536],
    /// The `id` field: a digest of the parts of the image.
    pub hash_digest: [u8; 32],
    pub versioned: HeaderV0Versioned,
}

/// A header of version 3 or 4.
#[derive(Clone, Copy, Debug)]
pub struct HeaderV3 {
    pub kernel_size: u32,
    pub ramdisk_size: u32,
    pub osversionpatch: OsVersionPatch,
    pub cmdline: [u8; 1536],
    /// The boot signature size, which only version 4 has.
    pub v4_signature_size: Option<u32>,
}

/// A boot image header.
#[derive(Clone, Copy, Debug)]
pub enum Header {
    V0(HeaderV0),
    V3(HeaderV3),
}

/// The version 1 and 2 fields of a header of version 0, 1 or 2 held by `s`.
pub open spec fn versioned_fields(s: Seq<u8>) -> HeaderV0Versioned {
    if le32(s, 40) == 0 {
        HeaderV0Versioned::V0
    } else if le32(s, 40) == 1 {
        HeaderV0Versioned::V1 { recovery_dtbo_size: le32(s, 1632), recovery_dtbo_addr: le64(s, 1636) }
    } else {
        HeaderV0Versioned::V2 {
            recovery_dtbo_size: le32(s, 1632),
            recovery_dtbo_addr: le64(s, 1636),
            dtb_size: le32(s, 1648),
            dtb_addr: le64(s, 1652),
        }
    }
}

/// `h` holds the fields of the version 0, 1 or 2 header at the start of `s`.
pub open spec fn v0_fields(s: Seq<u8>, h: HeaderV0) -> bool {
    &&& h.kernel_size == le32(s, 8)
    &&& h.kernel_addr == le32(s, 12)
    &&& h.ramdisk_size == le32(s, 16)
    &&& h.ramdisk_addr == le32(s, 20)
    &&& h.second_bootloader_size == le32(s, 24)
    &&& h.second_bootloader_addr == le32(s, 28)
    &&& h.tags_addr == le32(s, 32)
    &&& h.page_size == le32(s, 36)
    &&& h.osversionpatch.0 == le32(s, 44)
    &&& h.board_name@ == s.subrange(48, 64)
    &&& h.cmdline@ == s.subrange(64, 576) + s.subrange(608, 1632)
    &&& h.hash_digest@ == s.subrange(576, 608)
    &&& h.versioned == versioned_fields(s)
}

/// `h` holds the fields of the version 3 or 4 header at the start of `s`.
pub open spec fn v3_fields(s: Seq<u8>, h: HeaderV3) -> bool {
    &&& h.kernel_size == le32(s, 8)
    &&& h.ramdisk_size == le32(s, 12)
    &&& h.osversionpatch.0 == le32(s, 16)
    &&& h.cmdline@ == s.subrange(44, 1580)
    &&& h.v4_signature_size == (if le32(s, 40) == 4 {
        Some(le32(s, 1580))
    } else {
        None::<u32>
    })
}

/// `h` is the header at the start of `s`.
pub open spec fn decodes(s: Seq<u8>, h: Header) -> bool {
    match h {
        Header::V0(v) => le32(s, 40) <= 2 && v0_fields(s, v),
        Header::V3(v) => 3 <= le32(s, 40) <= 4 && v3_fields(s, v),
    }
}

/// The little-endian `u32` at `off`.
fn read_u32(s: &[u8], off: usize) -> (r: u32)
    requires
        off + 4 <= s@.len(),
    ensures
        r == le32(s@, off as int),
{
    let b0 = s[off] as u32;
    let b1 = s[off + 1] as u32;
    let b2 = s[off + 2] as u32;
    let b3 = s[off + 3] as u32;
    b0 + b1 * 256 + b2 * 65536 + b3 * 16777216
}

/// The little-endian `u64` at `off`.
fn read_u64(s: &[u8], off: usize) -> (r: u64)
    requires
        off + 8 <= s@.len(),
    ensures
        r == le64(s@, off as int),
{
    let len = s.len();
    assert(off + 8 <= len);
    let lo = read_u32(s, off) as u64;
    let hi = read_u32(s, off + 4) as u64;
    lo + hi * 4294967296
}

/// Copies `len` bytes of `s` from `from` into `a` at `at`.
fn copy_into<const N: usize>(a: &mut [u8; N], at: usize, s: &[u8], from: usize, len: usize)
    requires
        at + len <= N,
        from + len <= s@.len(),
    ensures
        final(a)@ == old(a)@.subrange(0, at as int) + s@.subrange(from as int, from + len)
            + old(a)@.subrange(at + len, N as int),
{
    let n = s.len();
    let mut i: usize = 0;
    while i < len
        invariant
            i <= len,
            n == s@.len(),
            at + len <= N,
            from + len <= s@.len(),
            a@.len() == N,
            forall|j: int| 0 <= j < at ==> a@[j] == old(a)@[j],
            forall|j: int| at + len <= j < N ==> a@[j] == old(a)@[j],
            forall|j: int| at <= j < at + i ==> #[trigger] a@[j] == s@[from + (j - at)],
        decreases len - i,
    {
        a[at + i] = s[from + i];
        i = i + 1;
    }
    assert(a@ =~= old(a)@.subrange(0, at as int) + s@.subrange(from as int, from + len)
        + old(a)@.subrange(at + len, N as int));
}

/// The `N` bytes of `s` from `from`.
fn read_array<const N: usize>(s: &[u8], from: usize) -> (a: [u8; N])
    requires
        from + N <= s@.len(),
    ensures
        a@ == s@.subrange(from as int, from + N),
{
    let mut a: [u8; N] = [0u8; N];
    copy_into(&mut a, 0, s, from, N);
    assert(a@ =~= s@.subrange(from as int, from + N));
    a
}

impl Header {
    /// Parses the header at the start of `bytes`.
    #[verifier::rlimit(30)]
    pub fn parse(bytes: &[u8]) -> (r: Result<Header, ParseError>)
        ensures
            match r {
                Ok(h) => parse_error(bytes@) is None && decodes(bytes@, h) && h.wf(),
                Err(e) => parse_error(bytes@) == Some(e),
            },
    {
        let s = bytes;
        if s.len() < 8 {
            return Err(ParseError::UnexpectedEnd);
        }
        let magic: [u8; 8] = [65u8, 78u8, 68u8, 82u8, 79u8, 73u8, 68u8, 33u8];
        assert(magic@ =~= boot_magic());
        let mut k: usize = 0;
        while k < 8
            invariant
                k <= 8 <= s@.len(),
                s == bytes,
                magic@ == boot_magic(),
                forall|j: int| 0 <= j < k ==> s@[j] == boot_magic()[j],
            decreases 8 - k,
        {
            let expected = magic[k];
            assert(expected == boot_magic()[k as int]);
            if s[k] != expected {
                proof {
                    assert(s@[k as int] != boot_magic()[k as int]);
                    assert(s@.subrange(0, 8)[k as int] != boot_magic()[k as int]);
                }
                return Err(ParseError::BadMagic);
            }
            k = k + 1;
        }
        assert(s@.subrange(0, 8) =~= boot_magic());
        if s.len() < 44 {
            return Err(ParseError::UnexpectedEnd);
        }
        let version = read_u32(s, 40);
        if version > 4 {
            return Err(ParseError::UnsupportedVersion(version));
        }
        let needed: usize = if version == 0 {
            1632
        } else if version == 1 {
            1648
        } else if version == 2 {
            1660
        } else if version == 3 {
            1580
        } else {
            1584
        };
        if s.len() < needed {
            return Err(ParseError::UnexpectedEnd);
        }
        if version <= 2 {
            let page_size = read_u32(s, 36);
            if page_size == 0 {
                return Err(ParseError::ZeroPageSize);
            }
            let mut cmdline: [u8; 1536] = [0u8; 1536];
            copy_into(&mut cmdline, 0, s, 64, 512);
            copy_into(&mut cmdline, 512, s, 608, 1024);
            assert(cmdline@ =~= s@.subrange(64, 576) + s@.subrange(608, 1632));
            let versioned = if version == 0 {
                HeaderV0Versioned::V0
            } else if version == 1 {
                HeaderV0Versioned::V1 {
                    recovery_dtbo_size: read_u32(s, 1632),
                    recovery_dtbo_addr: read_u64(s, 1636),
                }
            } else {
                HeaderV0Versioned::V2 {
                    recovery_dtbo_size: read_u32(s, 1632),
                    recovery_dtbo_addr: read_u64(s, 1636),
                    dtb_size: read_u32(s, 1648),
                    dtb_addr: read_u64(s, 1652),
                }
            };
            Ok(
                Header::V0(
                    HeaderV0 {
                        kernel_size: read_u32(s, 8),
                        kernel_addr: read_u32(s, 12),
                        ramdisk_size: read_u32(s, 16),
                        ramdisk_addr: read_u32(s, 20),
                        second_bootloader_size: read_u32(s, 24),
                        second_bootloader_addr: read_u32(s, 28),
                        tags_addr: read_u32(s, 32),
                        page_size,
                        osversionpatch: OsVersionPatch(read_u32(s, 44)),
                        board_name: read_array(s, 48),
                        cmdline,
                        hash_digest: read_array(s, 576),
                        versioned,
                    },
                ),
            )
        } else {
            let v4_signature_size = if version == 4 {
                Some(read_u32(s, 1580))
            } else {
                None
            };
            Ok(
                Header::V3(
                    HeaderV3 {
                        kernel_size: read_u32(s, 8),
                        ramdisk_size: read_u32(s, 12),
                        osversionpatch: OsVersionPatch(read_u32(s, 16)),
                        cmdline: read_array(s, 44),
                        v4_signature_size,
                    },
                ),
            )
        }
    }
}

/// `size` rounded up to the next multiple of `page` (`page > 0`).
pub open spec fn align_up(size: nat, page: nat) -> nat {
    if size % page == 0 {
        size
    } else {
        (size + (page - size % page)) as nat
    }
}

/// A part that starts at a page boundary and takes `align_up(size, page)`
/// bytes holds its `size` bytes and ends on a page boundary.
pub proof fn lemma_align_up(size: nat, page: nat)
    requires
        page > 0,
    ensures
        align_up(size, page) % page == 0,
        size <= align_up(size, page) < size + page,
{
    vstd::arithmetic::div_mod::lemma_mod_pos_bound(size as int, page as int);
    vstd::arithmetic::div_mod::lemma_fundamental_div_mod(size as int, page as int);
    if size % page != 0 {
        let q = size as int / page as int;
        assert(align_up(size, page) == (q + 1) * page) by (nonlinear_arith)
            requires
                size == page * q + size % page,
                align_up(size, page) == size + (page - size % page),
        ;
        vstd::arithmetic::div_mod::lemma_mod_multiples_basic(q + 1, page as int);
    }
}

/// `align_up(size, page)` computed on machine integers.
fn page_align(size: u32, page: u32) -> (r: u64)
    requires
        page > 0,
    ensures
        r == align_up(size as nat, page as nat),
        r < size + page,
{
    proof {
        vstd::arithmetic::div_mod::lemma_mod_pos_bound(size as int, page as int);
    }
    let rem = size % page;
    if rem == 0 {
        size as u64
    } else {
        size as u64 + (page - rem) as u64
    }
}

/// The recovery DTBO size of a header of version 0, 1 or 2 (0 for version 0).
pub open spec fn recovery_dtbo_size_of(v: HeaderV0Versioned) -> u32 {
    match v {
        HeaderV0Versioned::V0 => 0,
        HeaderV0Versioned::V1 { recovery_dtbo_size, .. } => recovery_dtbo_size,
        HeaderV0Versioned::V2 { recovery_dtbo_size, .. } => recovery_dtbo_size,
    }
}

impl HeaderV0 {
    /// The header gives a page size that parts can be laid out on.
    pub open spec fn wf(self) -> bool {
        self.page_size > 0
    }

    /// Where the kernel starts: the page after the header's.
    pub open spec fn kernel_pos(self) -> nat {
        self.page_size as nat
    }

    /// Where the ramdisk starts: the page after the kernel's last.
    pub open spec fn ramdisk_pos(self) -> nat {
        self.kernel_pos() + align_up(self.kernel_size as nat, self.page_size as nat)
    }

    /// Where the second bootloader starts: the page after the ramdisk's last.
    pub open spec fn second_pos(self) -> nat {
        self.ramdisk_pos() + align_up(self.ramdisk_size as nat, self.page_size as nat)
    }

    /// Where the recovery DTBO starts: the page after the second bootloader's last.
    pub open spec fn recovery_dtbo_pos(self) -> nat {
        self.second_pos() + align_up(self.second_bootloader_size as nat, self.page_size as nat)
    }

    /// Where the DTB starts: the page after the recovery DTBO's last.
    pub open spec fn dtb_pos(self) -> nat {
        self.recovery_dtbo_pos() + align_up(
            recovery_dtbo_size_of(self.versioned) as nat,
            self.page_size as nat,
        )
    }

    /// The offset of the kernel in the image.
    pub fn kernel_position(&self) -> (r: u64)
        requires
            self.wf(),
        ensures
            r == self.kernel_pos(),
    {
        self.page_size as u64
    }

    /// The offset of the ramdisk in the image.
    pub fn ramdisk_position(&self) -> (r: u64)
        requires
            self.wf(),
        ensures
            r == self.ramdisk_pos(),
    {
        self.kernel_position() + page_align(self.kernel_size, self.page_size)
    }

    /// The offset of the second bootloader in the image.
    pub fn second_bootloader_position(&self) -> (r: u64)
        requires
            self.wf(),
        ensures
            r == self.second_pos(),
    {
        self.ramdisk_position() + page_align(self.ramdisk_size, self.page_size)
    }

    /// The offset of the recovery DTBO in the image (where it would be, for
    /// version 0).
    pub fn recovery_dtbo_position(&self) -> (r: u64)
        requires
            self.wf(),
        ensures
            r == self.recovery_dtbo_pos(),
    {
        self.second_bootloader_position() + page_align(
            self.second_bootloader_size,
            self.page_size,
        )
    }

    /// The recovery DTBO size (0 for version 0).
    pub fn recovery_dtbo_size(&self) -> (r: u32)
        ensures
            r == recovery_dtbo_size_of(self.versioned),
    {
        match self.versioned {
            HeaderV0Versioned::V0 => 0,
            HeaderV0Versioned::V1 { recovery_dtbo_size, .. } => recovery_dtbo_size,
            HeaderV0Versioned::V2 { recovery_dtbo_size, .. } => recovery_dtbo_size,
        }
    }

    /// The offset of the DTB in the image; `None` unless the header is of
    /// version 2, the one that has a DTB.
    pub fn dtb_position(&self) -> (r: Option<u64>)
        requires
            self.wf(),
        ensures
            r is Some <==> self.versioned is V2,
            r matches Some(p) ==> p == self.dtb_pos(),
    {
        match self.versioned {
            HeaderV0Versioned::V2 { .. } => {
                let rdtbo = self.recovery_dtbo_size();
                Some(self.recovery_dtbo_position() + page_align(rdtbo, self.page_size))
            },
            _ => None,
        }
    }

    /// The header version: 0, 1 or 2.
    pub fn header_version(&self) -> (r: u32)
        ensures
            r == (match self.versioned {
                HeaderV0Versioned::V0 => 0u32,
                HeaderV0Versioned::V1 { .. } => 1u32,
                HeaderV0Versioned::V2 { .. } => 2u32,
            }),
    {
        match self.versioned {
            HeaderV0Versioned::V0 => 0,
            HeaderV0Versioned::V1 { .. } => 1,
            HeaderV0Versioned::V2 { .. } => 2,
        }
    }
}

impl HeaderV3 {
    /// Where the kernel starts: the page after the header's.
    pub open spec fn kernel_pos(self) -> nat {
        V3_PAGE_SIZE as nat
    }

    /// Where the ramdisk starts: the page after the kernel's last.
    pub open spec fn ramdisk_pos(self) -> nat {
        self.kernel_pos() + align_up(self.kernel_size as nat, V3_PAGE_SIZE as nat)
    }

    /// Where the boot signature starts: the page after the ramdisk's last.
    pub open spec fn bootsig_pos(self) -> nat {
        self.ramdisk_pos() + align_up(self.ramdisk_size as nat, V3_PAGE_SIZE as nat)
    }

    /// The offset of the kernel in the image.
    pub fn kernel_position(&self) -> (r: u64)
        ensures
            r == self.kernel_pos(),
    {
        V3_PAGE_SIZE as u64
    }

    /// The offset of the ramdisk in the image.
    pub fn ramdisk_position(&self) -> (r: u64)
        ensures
            r == self.ramdisk_pos(),
    {
        self.kernel_position() + page_align(self.kernel_size, V3_PAGE_SIZE)
    }

    /// The offset of the boot signature in the image (where it would be, for
    /// version 3).
    pub fn bootsig_position(&self) -> (r: u64)
        ensures
            r == self.bootsig_pos(),
    {
        self.ramdisk_position() + page_align(self.ramdisk_size, V3_PAGE_SIZE)
    }

    /// The header version: 3, or 4 where there is a boot signature size.
    pub fn header_version(&self) -> (r: u32)
        ensures
            r == (if self.v4_signature_size is Some {
                4u32
            } else {
                3u32
            }),
    {
        if self.v4_signature_size.is_some() {
            4
        } else {
            3
        }
    }
}

/// The header version of `h`.
pub open spec fn version_of(h: Header) -> u32 {
    match h {
        Header::V0(v) => match v.versioned {
            HeaderV0Versioned::V0 => 0u32,
            HeaderV0Versioned::V1 { .. } => 1u32,
            HeaderV0Versioned::V2 { .. } => 2u32,
        },
        Header::V3(v) => if v.v4_signature_size is Some {
            4u32
        } else {
            3u32
        },
    }
}

impl Header {
    /// The parts of the image can be laid out by this header.
    pub open spec fn wf(self) -> bool {
        match self {
            Header::V0(v) => v.wf(),
            Header::V3(_) => true,
        }
    }

    /// Where the kernel starts.
    pub open spec fn kernel_pos(self) -> nat {
        match self {
            Header::V0(v) => v.kernel_pos(),
            Header::V3(v) => v.kernel_pos(),
        }
    }

    /// Where the ramdisk starts.
    pub open spec fn ramdisk_pos(self) -> nat {
        match self {
            Header::V0(v) => v.ramdisk_pos(),
            Header::V3(v) => v.ramdisk_pos(),
        }
    }

    /// The kernel size.
    pub open spec fn spec_kernel_size(self) -> u32 {
        match self {
            Header::V0(v) => v.kernel_size,
            Header::V3(v) => v.kernel_size,
        }
    }

    /// The ramdisk size.
    pub open spec fn spec_ramdisk_size(self) -> u32 {
        match self {
            Header::V0(v) => v.ramdisk_size,
            Header::V3(v) => v.ramdisk_size,
        }
    }

    /// The page size: the header's own for versions 0 to 2, 4096 for 3 and 4.
    pub open spec fn spec_page_size(self) -> u32 {
        match self {
            Header::V0(v) => v.page_size,
            Header::V3(_) => V3_PAGE_SIZE,
        }
    }

    /// The packed OS version and patch level.
    pub open spec fn spec_osversionpatch(self) -> OsVersionPatch {
        match self {
            Header::V0(v) => v.osversionpatch,
            Header::V3(v) => v.osversionpatch,
        }
    }

    /// The offset of the kernel in the image.
    pub fn kernel_position(&self) -> (r: u64)
        requires
            self.wf(),
        ensures
            r == self.kernel_pos(),
    {
        match self {
            Header::V0(v) => v.kernel_position(),
            Header::V3(v) => v.kernel_position(),
        }
    }

    /// The offset of the ramdisk in the image.
    pub fn ramdisk_position(&self) -> (r: u64)
        requires
            self.wf(),
        ensures
            r == self.ramdisk_pos(),
    {
        match self {
            Header::V0(v) => v.ramdisk_position(),
            Header::V3(v) => v.ramdisk_position(),
        }
    }

    /// The kernel size.
    pub fn kernel_size(&self) -> (r: u32)
        ensures
            r == self.spec_kernel_size(),
    {
        match self {
            Header::V0(v) => v.kernel_size,
            Header::V3(v) => v.kernel_size,
        }
    }

    /// The ramdisk size.
    pub fn ramdisk_size(&self) -> (r: u32)
        ensures
            r == self.spec_ramdisk_size(),
    {
        match self {
            Header::V0(v) => v.ramdisk_size,
            Header::V3(v) => v.ramdisk_size,
        }
    }

    /// The page size.
    pub fn page_size(&self) -> (r: u32)
        ensures
            r == self.spec_page_size(),
    {
        match self {
            Header::V0(v) => v.page_size,
            Header::V3(_) => V3_PAGE_SIZE,
        }
    }

    /// The header version.
    pub fn header_version(&self) -> (r: u32)
        ensures
            r == version_of(*self),
    {
        match self {
            Header::V0(v) => v.header_version(),
            Header::V3(v) => v.header_version(),
        }
    }

    /// The packed OS version and patch level.
    pub fn osversionpatch(&self) -> (r: OsVersionPatch)
        ensures
            r == self.spec_osversionpatch(),
    {
        match self {
            Header::V0(v) => v.osversionpatch,
            Header::V3(v) => v.osversionpatch,
        }
    }
}

/// A header that parsing gives can lay out its image, and its version is the
/// version field of the bytes.
pub proof fn lemma_parsed_header_wf(s: Seq<u8>, h: Header)
    requires
        parse_error(s) is None,
        decodes(s, h),
    ensures
        h.wf(),
        version_of(h) == le32(s, 40),
{
}

/// The four little-endian bytes of `x`.
pub open spec fn le32_bytes(x: u32) -> Seq<u8> {
    seq![(x % 256) as u8, (x / 256 % 256) as u8, (x / 65536 % 256) as u8, (x / 16777216) as u8]
}

/// The eight little-endian bytes of `x`.
pub open spec fn le64_bytes(x: u64) -> Seq<u8> {
    le32_bytes((x % 4294967296) as u32) + le32_bytes((x / 4294967296) as u32)
}

/// The bytes of the fields that versions 1 and 2 add, header size included.
pub open spec fn versioned_bytes(v: HeaderV0Versioned) -> Seq<u8> {
    match v {
        HeaderV0Versioned::V0 => Seq::empty(),
        HeaderV0Versioned::V1 { recovery_dtbo_size, recovery_dtbo_addr } => le32_bytes(
            recovery_dtbo_size,
        ) + le64_bytes(recovery_dtbo_addr) + le32_bytes(1648),
        HeaderV0Versioned::V2 { recovery_dtbo_size, recovery_dtbo_addr, dtb_size, dtb_addr } =>
            le32_bytes(recovery_dtbo_size) + le64_bytes(recovery_dtbo_addr) + le32_bytes(1660)
            + le32_bytes(dtb_size) + le64_bytes(dtb_addr),
    }
}

/// The bytes of a header of version 0, 1 or 2.
pub open spec fn v0_bytes(h: HeaderV0) -> Seq<u8> {
    boot_magic() + le32_bytes(h.kernel_size) + le32_bytes(h.kernel_addr) + le32_bytes(
        h.ramdisk_size,
    ) + le32_bytes(h.ramdisk_addr) + le32_bytes(h.second_bootloader_size) + le32_bytes(
        h.second_bootloader_addr,
    ) + le32_bytes(h.tags_addr) + le32_bytes(h.page_size) + le32_bytes(
        version_of(Header::V0(h)),
    ) + le32_bytes(h.osversionpatch.0) + h.board_name@ + h.cmdline@.subrange(0, 512)
        + h.hash_digest@ + h.cmdline@.subrange(512, 1536) + versioned_bytes(h.versioned)
}

/// The bytes of a header of version 3 or 4; its reserved words are zero.
pub open spec fn v3_bytes(h: HeaderV3) -> Seq<u8> {
    boot_magic() + le32_bytes(h.kernel_size) + le32_bytes(h.ramdisk_size) + le32_bytes(
        h.osversionpatch.0,
    ) + le32_bytes(header_len(version_of(Header::V3(h))) as u32) + Seq::new(16, |i: int| 0u8)
        + le32_bytes(version_of(Header::V3(h))) + h.cmdline@ + match h.v4_signature_size {
        Some(size) => le32_bytes(size),
        None => Seq::empty(),
    }
}

/// The bytes of header `h`.
pub open spec fn header_bytes(h: Header) -> Seq<u8> {
    match h {
        Header::V0(v) => v0_bytes(v),
        Header::V3(v) => v3_bytes(v),
    }
}

/// Reading back the four bytes of `x` gives `x`.
pub proof fn lemma_le32_bytes(s: Seq<u8>, off: int, x: u32)
    requires
        0 <= off,
        off + 4 <= s.len(),
        s.subrange(off, off + 4) == le32_bytes(x),
    ensures
        le32(s, off) == x,
{
    assert(s[off] == le32_bytes(x)[0]);
    assert(s[off + 1] == le32_bytes(x)[1]);
    assert(s[off + 2] == le32_bytes(x)[2]);
    assert(s[off + 3] == le32_bytes(x)[3]);
    let xi = x as int;
    assert(xi == xi % 256 + (xi / 256 % 256) * 256 + (xi / 65536 % 256) * 65536 + (xi / 16777216)
        * 16777216) by (nonlinear_arith)
        requires
            0 <= xi < 4294967296,
    ;
}

/// Reading back the eight bytes of `x` gives `x`.
pub proof fn lemma_le64_bytes(s: Seq<u8>, off: int, x: u64)
    requires
        0 <= off,
        off + 8 <= s.len(),
        s.subrange(off, off + 8) == le64_bytes(x),
    ensures
        le64(s, off) == x,
{
    assert(s.subrange(off, off + 4) =~= s.subrange(off, off + 8).subrange(0, 4));
    assert(s.subrange(off + 4, off + 8) =~= s.subrange(off, off + 8).subrange(4, 8));
    assert(le64_bytes(x).subrange(0, 4) =~= le32_bytes((x % 4294967296) as u32));
    assert(le64_bytes(x).subrange(4, 8) =~= le32_bytes((x / 4294967296) as u32));
    lemma_le32_bytes(s, off, (x % 4294967296) as u32);
    lemma_le32_bytes(s, off + 4, (x / 4294967296) as u32);
    let xi = x as int;
    assert(xi == xi % 4294967296 + (xi / 4294967296) * 4294967296) by (nonlinear_arith)
        requires
            0 <= xi,
    ;
}

/// The bytes that `header_bytes` gives for a header that can lay out its image
/// parse back to that very header.
pub proof fn lemma_header_bytes_parse(h: Header)
    requires
        h.wf(),
    ensures
        parse_error(header_bytes(h)) is None,
        decodes(header_bytes(h), h),
{
    match h {
        Header::V0(v) => lemma_v0_bytes_parse(v),
        Header::V3(v) => lemma_v3_bytes_parse(v),
    }
}

#[verifier::rlimit(30)]
proof fn lemma_v0_bytes_parse(h: HeaderV0)
    requires
        h.wf(),
    ensures
        parse_error(v0_bytes(h)) is None,
        decodes(v0_bytes(h), Header::V0(h)),
{
    let s = v0_bytes(h);
    let ver = version_of(Header::V0(h));
    assert(s.len() == header_len(ver));
    assert(s.subrange(0, 8) =~= boot_magic());
    assert(s.subrange(8, 12) =~= le32_bytes(h.kernel_size));
    lemma_le32_bytes(s, 8, h.kernel_size);
    assert(s.subrange(12, 16) =~= le32_bytes(h.kernel_addr));
    lemma_le32_bytes(s, 12, h.kernel_addr);
    assert(s.subrange(16, 20) =~= le32_bytes(h.ramdisk_size));
    lemma_le32_bytes(s, 16, h.ramdisk_size);
    assert(s.subrange(20, 24) =~= le32_bytes(h.ramdisk_addr));
    lemma_le32_bytes(s, 20, h.ramdisk_addr);
    assert(s.subrange(24, 28) =~= le32_bytes(h.second_bootloader_size));
    lemma_le32_bytes(s, 24, h.second_bootloader_size);
    assert(s.subrange(28, 32) =~= le32_bytes(h.second_bootloader_addr));
    lemma_le32_bytes(s, 28, h.second_bootloader_addr);
    assert(s.subrange(32, 36) =~= le32_bytes(h.tags_addr));
    lemma_le32_bytes(s, 32, h.tags_addr);
    assert(s.subrange(36, 40) =~= le32_bytes(h.page_size));
    lemma_le32_bytes(s, 36, h.page_size);
    assert(s.subrange(40, 44) =~= le32_bytes(ver));
    lemma_le32_bytes(s, 40, ver);
    assert(s.subrange(44, 48) =~= le32_bytes(h.osversionpatch.0));
    lemma_le32_bytes(s, 44, h.osversionpatch.0);
    assert(s.subrange(48, 64) =~= h.board_name@);
    assert(s.subrange(64, 576) + s.subrange(608, 1632) =~= h.cmdline@);
    assert(s.subrange(576, 608) =~= h.hash_digest@);
    match h.versioned {
        HeaderV0Versioned::V0 => {},
        HeaderV0Versioned::V1 { recovery_dtbo_size, recovery_dtbo_addr } => {
            assert(s.subrange(1632, 1636) =~= le32_bytes(recovery_dtbo_size));
            lemma_le32_bytes(s, 1632, recovery_dtbo_size);
            assert(s.subrange(1636, 1644) =~= le64_bytes(recovery_dtbo_addr));
            lemma_le64_bytes(s, 1636, recovery_dtbo_addr);
        },
        HeaderV0Versioned::V2 { recovery_dtbo_size, recovery_dtbo_addr, dtb_size, dtb_addr } => {
            assert(s.subrange(1632, 1636) =~= le32_bytes(recovery_dtbo_size));
            lemma_le32_bytes(s, 1632, recovery_dtbo_size);
            assert(s.subrange(1636, 1644) =~= le64_bytes(recovery_dtbo_addr));
            lemma_le64_bytes(s, 1636, recovery_dtbo_addr);
            assert(s.subrange(1648, 1652) =~= le32_bytes(dtb_size));
            lemma_le32_bytes(s, 1648, dtb_size);
            assert(s.subrange(1652, 1660) =~= le64_bytes(dtb_addr));
            lemma_le64_bytes(s, 1652, dtb_addr);
        },
    }
}

proof fn lemma_v3_bytes_parse(h: HeaderV3)
    ensures
        parse_error(v3_bytes(h)) is None,
        decodes(v3_bytes(h), Header::V3(h)),
{
    let s = v3_bytes(h);
    let ver = version_of(Header::V3(h));
    assert(s.len() == header_len(ver));
    assert(s.subrange(0, 8) =~= boot_magic());
    assert(s.subrange(8, 12) =~= le32_bytes(h.kernel_size));
    lemma_le32_bytes(s, 8, h.kernel_size);
    assert(s.subrange(12, 16) =~= le32_bytes(h.ramdisk_size));
    lemma_le32_bytes(s, 12, h.ramdisk_size);
    assert(s.subrange(16, 20) =~= le32_bytes(h.osversionpatch.0));
    lemma_le32_bytes(s, 16, h.osversionpatch.0);
    assert(s.subrange(40, 44) =~= le32_bytes(ver));
    lemma_le32_bytes(s, 40, ver);
    assert(s.subrange(44, 1580) =~= h.cmdline@);
    if let Some(size) = h.v4_signature_size {
        assert(s.subrange(1580, 1584) =~= le32_bytes(size));
        lemma_le32_bytes(s, 1580, size);
    }
}

/// Appends the four little-endian bytes of `x` to `out`.
fn push_le32(out: &mut Vec<u8>, x: u32)
    ensures
        final(out)@ == old(out)@ + le32_bytes(x),
{
    out.push((x % 256) as u8);
    out.push((x / 256 % 256) as u8);
    out.push((x / 65536 % 256) as u8);
    out.push((x / 16777216) as u8);
    assert(out@ =~= old(out)@ + le32_bytes(x));
}

/// Appends the eight little-endian bytes of `x` to `out`.
fn push_le64(out: &mut Vec<u8>, x: u64)
    ensures
        final(out)@ == old(out)@ + le64_bytes(x),
{
    push_le32(out, (x % 4294967296) as u32);
    push_le32(out, (x / 4294967296) as u32);
    assert(out@ =~= old(out)@ + le64_bytes(x));
}

/// Appends the bytes of `a` from `from` to `to` to `out`.
fn push_range<const N: usize>(out: &mut Vec<u8>, a: &[u8; N], from: usize, to: usize)
    requires
        from <= to <= N,
    ensures
        final(out)@ == old(out)@ + a@.subrange(from as int, to as int),
{
    let mut i: usize = from;
    while i < to
        invariant
            from <= i <= to <= N,
            a@.len() == N,
            out@ == old(out)@ + a@.subrange(from as int, i as int),
        decreases to - i,
    {
        out.push(a[i]);
        i = i + 1;
        assert(out@ =~= old(out)@ + a@.subrange(from as int, i as int));
    }
}

impl Header {
    /// The bytes of this header, as `parse` reads them. The fields that
    /// `parse` does not keep (the header size, the reserved words) are written
    /// as `mkbootimg` writes them.
    #[verifier::rlimit(30)]
    pub fn to_bytes(&self) -> (r: Vec<u8>)
        ensures
            r@ == header_bytes(*self),
    {
        let mut out: Vec<u8> = Vec::new();
        out.push(65u8);
        out.push(78u8);
        out.push(68u8);
        out.push(82u8);
        out.push(79u8);
        out.push(73u8);
        out.push(68u8);
        out.push(33u8);
        assert(out@ =~= boot_magic());
        let version = self.header_version();
        match self {
            Header::V0(h) => {
                push_le32(&mut out, h.kernel_size);
                push_le32(&mut out, h.kernel_addr);
                push_le32(&mut out, h.ramdisk_size);
                push_le32(&mut out, h.ramdisk_addr);
                push_le32(&mut out, h.second_bootloader_size);
                push_le32(&mut out, h.second_bootloader_addr);
                push_le32(&mut out, h.tags_addr);
                push_le32(&mut out, h.page_size);
                push_le32(&mut out, version);
                push_le32(&mut out, h.osversionpatch.0);
                push_range(&mut out, &h.board_name, 0, 16);
                assert(h.board_name@.subrange(0, 16) =~= h.board_name@);
                push_range(&mut out, &h.cmdline, 0, 512);
                push_range(&mut out, &h.hash_digest, 0, 32);
                assert(h.hash_digest@.subrange(0, 32) =~= h.hash_digest@);
                push_range(&mut out, &h.cmdline, 512, 1536);
                let ghost before = out@;
                match h.versioned {
                    HeaderV0Versioned::V0 => {},
                    HeaderV0Versioned::V1 { recovery_dtbo_size, recovery_dtbo_addr } => {
                        push_le32(&mut out, recovery_dtbo_size);
                        push_le64(&mut out, recovery_dtbo_addr);
                        push_le32(&mut out, 1648);
                    },
                    HeaderV0Versioned::V2 {
                        recovery_dtbo_size,
                        recovery_dtbo_addr,
                        dtb_size,
                        dtb_addr,
                    } => {
                        push_le32(&mut out, recovery_dtbo_size);
                        push_le64(&mut out, recovery_dtbo_addr);
                        push_le32(&mut out, 1660);
                        push_le32(&mut out, dtb_size);
                        push_le64(&mut out, dtb_addr);
                    },
                }
                assert(out@ =~= before + versioned_bytes(h.versioned));
                assert(out@ =~= v0_bytes(*h));
            },
            Header::V3(h) => {
                push_le32(&mut out, h.kernel_size);
                push_le32(&mut out, h.ramdisk_size);
                push_le32(&mut out, h.osversionpatch.0);
                let header_size: u32 = if version == 4 {
                    1584
                } else {
                    1580
                };
                push_le32(&mut out, header_size);
                let ghost before_reserved = out@;
                let mut i: usize = 0;
                while i < 16
                    invariant
                        i <= 16,
                        out@ == before_reserved + Seq::new(i as nat, |j: int| 0u8),
                    decreases 16 - i,
                {
                    out.push(0u8);
                    i = i + 1;
                    assert(out@ =~= before_reserved + Seq::new(i as nat, |j: int| 0u8));
                }
                push_le32(&mut out, version);
                push_range(&mut out, &h.cmdline, 0, 1536);
                assert(h.cmdline@.subrange(0, 1536) =~= h.cmdline@);
                match h.v4_signature_size {
                    Some(size) => push_le32(&mut out, size),
                    None => {},
                }
                assert(out@ =~= v3_bytes(*h));
            },
        }
        out
    }
}

/// The bytes determine the header: two headers that the same bytes decode to
/// are equal.
pub proof fn lemma_decodes_unique(s: Seq<u8>, h1: Header, h2: Header)
    requires
        decodes(s, h1),
        decodes(s, h2),
    ensures
        h1 == h2,
{
    match (h1, h2) {
        (Header::V0(a), Header::V0(b)) => {
            assert(a.board_name =~= b.board_name);
            assert(a.cmdline =~= b.cmdline);
            assert(a.hash_digest =~= b.hash_digest);
            assert(a == b);
        },
        (Header::V3(a), Header::V3(b)) => {
            assert(a.cmdline =~= b.cmdline);
            assert(a == b);
        },
        _ => {},
    }
}

/// Writing back the `u32` read at `off` gives the four bytes there.
pub proof fn lemma_le32_of(s: Seq<u8>, off: int)
    requires
        0 <= off,
        off + 4 <= s.len(),
    ensures
        le32_bytes(le32(s, off)) == s.subrange(off, off + 4),
{
    let b0 = s[off] as int;
    let b1 = s[off + 1] as int;
    let b2 = s[off + 2] as int;
    let b3 = s[off + 3] as int;
    let x = b0 + b1 * 256 + b2 * 65536 + b3 * 16777216;
    assert(x % 256 == b0 && x / 256 % 256 == b1 && x / 65536 % 256 == b2 && x / 16777216 == b3)
        by (nonlinear_arith)
        requires
            0 <= b0 < 256,
            0 <= b1 < 256,
            0 <= b2 < 256,
            0 <= b3 < 256,
            x == b0 + b1 * 256 + b2 * 65536 + b3 * 16777216,
    ;
    assert(le32_bytes(le32(s, off)) =~= s.subrange(off, off + 4));
}

/// Writing back the `u64` read at `off` gives the eight bytes there.
pub proof fn lemma_le64_of(s: Seq<u8>, off: int)
    requires
        0 <= off,
        off + 8 <= s.len(),
    ensures
        le64_bytes(le64(s, off)) == s.subrange(off, off + 8),
{
    lemma_le32_of(s, off);
    lemma_le32_of(s, off + 4);
    let lo = le32(s, off) as int;
    let hi = le32(s, off + 4) as int;
    let x = lo + hi * 4294967296;
    assert(x % 4294967296 == lo && x / 4294967296 == hi) by (nonlinear_arith)
        requires
            0 <= lo < 4294967296,
            0 <= hi < 4294967296,
            x == lo + hi * 4294967296,
    ;
    assert(le64_bytes(le64(s, off)) =~= s.subrange(off, off + 8));
}

/// `s` holds, in the fields that `parse` does not keep, what `header_bytes`
/// writes there: the header size of versions 1 to 4 and the reserved words of
/// versions 3 and 4.
pub open spec fn unkept_fields_as_written(s: Seq<u8>) -> bool {
    let v = le32(s, 40);
    if v == 0 {
        true
    } else if v <= 2 {
        le32(s, 1644) == header_len(v)
    } else {
        &&& le32(s, 20) == header_len(v)
        &&& forall|i: int| 24 <= i < 40 ==> s[i] == 0
    }
}

/// The bytes that a parsed header gives back are the bytes it was parsed
/// from, where those hold in the fields that `parse` does not keep what
/// `header_bytes` writes there.
pub proof fn lemma_parse_header_bytes(s: Seq<u8>, h: Header)
    requires
        parse_error(s) is None,
        decodes(s, h),
        unkept_fields_as_written(s),
    ensures
        header_bytes(h) == s.subrange(0, header_len(le32(s, 40))),
{
    match h {
        Header::V0(hv) => lemma_parse_v0_bytes(s, hv),
        Header::V3(hv) => lemma_parse_v3_bytes(s, hv),
    }
}

/// The first 1632 bytes of a version 0, 1 or 2 header are those of its fields.
#[verifier::rlimit(30)]
proof fn lemma_v0_base_bytes(s: Seq<u8>, hv: HeaderV0)
    requires
        s.len() >= 1632,
        le32(s, 40) <= 2,
        s.subrange(0, 8) == boot_magic(),
        v0_fields(s, hv),
    ensures
        v0_bytes(hv) == s.subrange(0, 1632) + versioned_bytes(hv.versioned),
{
    lemma_le32_of(s, 8);
    lemma_le32_of(s, 12);
    lemma_le32_of(s, 16);
    lemma_le32_of(s, 20);
    lemma_le32_of(s, 24);
    lemma_le32_of(s, 28);
    lemma_le32_of(s, 32);
    lemma_le32_of(s, 36);
    lemma_le32_of(s, 40);
    lemma_le32_of(s, 44);
    assert(le32(s, 40) == version_of(Header::V0(hv)));
    assert(hv.cmdline@.subrange(0, 512) =~= s.subrange(64, 576));
    assert(hv.cmdline@.subrange(512, 1536) =~= s.subrange(608, 1632));
    assert(s.subrange(0, 1632) =~= s.subrange(0, 8) + s.subrange(8, 12) + s.subrange(12, 16)
        + s.subrange(16, 20) + s.subrange(20, 24) + s.subrange(24, 28) + s.subrange(28, 32)
        + s.subrange(32, 36) + s.subrange(36, 40) + s.subrange(40, 44) + s.subrange(44, 48)
        + s.subrange(48, 64) + s.subrange(64, 576) + s.subrange(576, 608) + s.subrange(608, 1632));
}

#[verifier::rlimit(30)]
proof fn lemma_parse_v0_bytes(s: Seq<u8>, hv: HeaderV0)
    requires
        parse_error(s) is None,
        le32(s, 40) <= 2,
        v0_fields(s, hv),
        unkept_fields_as_written(s),
    ensures
        v0_bytes(hv) == s.subrange(0, header_len(le32(s, 40))),
{
    let v = le32(s, 40);
    assert(s.subrange(0, 8) =~= boot_magic());
    lemma_v0_base_bytes(s, hv);
    if v == 0 {
        assert(v0_bytes(hv) =~= s.subrange(0, 1632));
    } else if v == 1 {
        lemma_le32_of(s, 1632);
        lemma_le64_of(s, 1636);
        lemma_le32_of(s, 1644);
        assert(versioned_bytes(hv.versioned) =~= s.subrange(1632, 1648));
        assert(v0_bytes(hv) =~= s.subrange(0, 1648));
    } else {
        lemma_le32_of(s, 1632);
        lemma_le64_of(s, 1636);
        lemma_le32_of(s, 1644);
        lemma_le32_of(s, 1648);
        lemma_le64_of(s, 1652);
        assert(versioned_bytes(hv.versioned) =~= s.subrange(1632, 1660));
        assert(v0_bytes(hv) =~= s.subrange(0, 1660));
    }
}

proof fn lemma_parse_v3_bytes(s: Seq<u8>, hv: HeaderV3)
    requires
        parse_error(s) is None,
        3 <= le32(s, 40) <= 4,
        v3_fields(s, hv),
        unkept_fields_as_written(s),
    ensures
        v3_bytes(hv) == s.subrange(0, header_len(le32(s, 40))),
{
    let v = le32(s, 40);
    assert(s.subrange(0, 8) =~= boot_magic());
    lemma_le32_of(s, 8);
    lemma_le32_of(s, 12);
    lemma_le32_of(s, 16);
    lemma_le32_of(s, 20);
    lemma_le32_of(s, 40);
    assert(Seq::new(16, |i: int| 0u8) =~= s.subrange(24, 40));
    assert(s.subrange(0, 1580) =~= s.subrange(0, 8) + s.subrange(8, 12) + s.subrange(12, 16)
        + s.subrange(16, 20) + s.subrange(20, 24) + s.subrange(24, 40) + s.subrange(40, 44)
        + s.subrange(44, 1580));
    if v == 3 {
        assert(v3_bytes(hv) =~= s.subrange(0, 1580));
    } else {
        lemma_le32_of(s, 1580);
        assert(v3_bytes(hv) =~= s.subrange(0, 1584));
    }
}

/// In an image with a version 0, 1 or 2 header, the header takes the first
/// page and every part starts at the first page boundary at or after the end
/// of the part before it.
pub proof fn lemma_layout_v0(h: HeaderV0)
    requires
        h.wf(),
    ensures
        h.kernel_pos() % (h.page_size as nat) == 0,
        h.ramdisk_pos() % (h.page_size as nat) == 0,
        h.second_pos() % (h.page_size as nat) == 0,
        h.recovery_dtbo_pos() % (h.page_size as nat) == 0,
        h.dtb_pos() % (h.page_size as nat) == 0,
        h.kernel_pos() >= h.page_size,
        h.ramdisk_pos() >= h.kernel_pos() + h.kernel_size,
        h.second_pos() >= h.ramdisk_pos() + h.ramdisk_size,
        h.recovery_dtbo_pos() >= h.second_pos() + h.second_bootloader_size,
        h.dtb_pos() >= h.recovery_dtbo_pos() + recovery_dtbo_size_of(h.versioned),
        h.kernel_pos() == h.page_size,
        h.ramdisk_pos() < h.kernel_pos() + h.kernel_size + h.page_size,
        h.second_pos() < h.ramdisk_pos() + h.ramdisk_size + h.page_size,
        h.recovery_dtbo_pos() < h.second_pos() + h.second_bootloader_size + h.page_size,
        h.dtb_pos() < h.recovery_dtbo_pos() + recovery_dtbo_size_of(h.versioned) + h.page_size,
{
    let p = h.page_size as nat;
    lemma_align_up(h.kernel_size as nat, p);
    lemma_align_up(h.ramdisk_size as nat, p);
    lemma_align_up(h.second_bootloader_size as nat, p);
    lemma_align_up(recovery_dtbo_size_of(h.versioned) as nat, p);
    vstd::arithmetic::div_mod::lemma_mod_self_0(p as int);
    let a = align_up(h.kernel_size as nat, p);
    let b = align_up(h.ramdisk_size as nat, p);
    let c = align_up(h.second_bootloader_size as nat, p);
    let d = align_up(recovery_dtbo_size_of(h.versioned) as nat, p);
    lemma_sum_of_multiples(p, a, p);
    lemma_sum_of_multiples(p + a, b, p);
    lemma_sum_of_multiples(p + a + b, c, p);
    lemma_sum_of_multiples(p + a + b + c, d, p);
}

/// In an image with a version 3 or 4 header, the header takes the first 4096
/// byte page and every part starts at the first page boundary at or after
/// the end of the part before it.
pub proof fn lemma_layout_v3(h: HeaderV3)
    ensures
        h.kernel_pos() % (V3_PAGE_SIZE as nat) == 0,
        h.ramdisk_pos() % (V3_PAGE_SIZE as nat) == 0,
        h.bootsig_pos() % (V3_PAGE_SIZE as nat) == 0,
        h.ramdisk_pos() >= h.kernel_pos() + h.kernel_size,
        h.bootsig_pos() >= h.ramdisk_pos() + h.ramdisk_size,
        h.kernel_pos() == 4096,
        h.ramdisk_pos() < h.kernel_pos() + h.kernel_size + 4096,
        h.bootsig_pos() < h.ramdisk_pos() + h.ramdisk_size + 4096,
{
    let p = V3_PAGE_SIZE as nat;
    lemma_align_up(h.kernel_size as nat, p);
    lemma_align_up(h.ramdisk_size as nat, p);
    let a = align_up(h.kernel_size as nat, p);
    let b = align_up(h.ramdisk_size as nat, p);
    lemma_sum_of_multiples(p, a, p);
    lemma_sum_of_multiples(p + a, b, p);
}

/// The sum of two multiples of `p` is a multiple of `p`.
proof fn lemma_sum_of_multiples(x: nat, y: nat, p: nat)
    requires
        p > 0,
        x % p == 0,
        y % p == 0,
    ensures
        (x + y) % p == 0,
{
    vstd::arithmetic::div_mod::lemma_add_mod_noop(x as int, y as int, p as int);
    vstd::arithmetic::div_mod::lemma_small_mod(0, p);
    assert((x as int % p as int) + (y as int % p as int) == 0);
}

} // verus!
