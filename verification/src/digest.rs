//! The `id` digest that `mkbootimg` stores in headers of version 0, 1 and 2:
//! a SHA-1 or SHA-256 digest of each part of the image followed by its size.
use vstd::prelude::*;
use crate::header::{Header, HeaderV0, HeaderV0Versioned, le32, le32_bytes, version_of};
use crate::unpack::{Part, PartKind};

verus! {

/// The SHA-1 digest of `data`, as the `sha1` crate computes it.
pub uninterp spec fn sha1_of(data: Seq<u8>) -> Seq<u8>;

/// The SHA-256 digest of `data`, as the `sha2` crate computes it.
pub uninterp spec fn sha256_of(data: Seq<u8>) -> Seq<u8>;

/// `sha1::Sha1::digest(data)`: claims that the result is the 20-byte digest
/// named `sha1_of(data)`; which bytes those are is not stated.
#[verifier::external_body]
fn sha1_digest(data: &[u8]) -> (d: Vec<u8>)
    ensures
        d@ == sha1_of(data@),
        d@.len() == 20,
{
    <sha1::Sha1 as sha1::Digest>::digest(data).to_vec()
}

/// `sha2::Sha256::digest(data)`: claims that the result is the 32-byte
/// digest named `sha256_of(data)`; which bytes those are is not stated.
#[verifier::external_body]
fn sha256_digest(data: &[u8]) -> (d: Vec<u8>)
    ensures
        d@ == sha256_of(data@),
        d@.len() == 32,
{
    <sha2::Sha256 as sha2::Digest>::digest(data).to_vec()
}

/// The digest that a header of version 0, 1 or 2 stores.
#[derive(Clone, Copy, Debug, PartialEq, Eq, Structural)]
pub enum HashAlgorithm {
    Sha1,
    Sha256,
}

/// `part` followed by its length as a little-endian `u32`.
pub open spec fn sized(part: Seq<u8>) -> Seq<u8> {
    part + le32_bytes(part.len() as u32)
}

/// What the digest is computed over: each part followed by its size; the
/// recovery DTBO and the DTB only where the header version has them.
pub open spec fn hash_message(
    kernel: Seq<u8>,
    ramdisk: Seq<u8>,
    second: Seq<u8>,
    recovery_dtbo: Option<Seq<u8>>,
    dtb: Option<Seq<u8>>,
) -> Seq<u8> {
    sized(kernel) + sized(ramdisk) + sized(second) + match recovery_dtbo {
        Some(p) => sized(p),
        None => Seq::empty(),
    } + match dtb {
        Some(p) => sized(p),
        None => Seq::empty(),
    }
}

/// `d` followed by zeros up to 32 bytes (`d` is at most 32 bytes).
pub open spec fn padded32(d: Seq<u8>) -> Seq<u8> {
    d + Seq::new((32 - d.len()) as nat, |i: int| 0u8)
}

/// The stored digest of `message` by `alg`.
pub open spec fn stored_digest(alg: HashAlgorithm, message: Seq<u8>) -> Seq<u8> {
    match alg {
        HashAlgorithm::Sha1 => padded32(sha1_of(message)),
        HashAlgorithm::Sha256 => sha256_of(message),
    }
}

/// Whether a stored digest looks like a SHA-1 one: its last 12 bytes are zero.
pub open spec fn looks_like_sha1(d: Seq<u8>) -> bool {
    forall|i: int| 20 <= i < 32 ==> d[i] == 0
}

/// Whether the stored digest `d` looks like a SHA-1 one (its last 12 bytes are
/// zero) rather than a SHA-256 one.
pub fn is_sha1_digest(d: &[u8; 32]) -> (r: bool)
    ensures
        r == looks_like_sha1(d@),
{
    let mut i: usize = 20;
    while i < 32
        invariant
            20 <= i <= 32,
            forall|j: int| 20 <= j < i ==> d@[j] == 0,
        decreases 32 - i,
    {
        if d[i] != 0 {
            return false;
        }
        i = i + 1;
    }
    true
}

/// Appends `part` and its length as a little-endian `u32` to `out`.
fn push_sized(out: &mut Vec<u8>, part: &[u8])
    requires
        part@.len() <= u32::MAX,
    ensures
        final(out)@ == old(out)@ + sized(part@),
{
    crate::text::push_bytes(out, part);
    let n: u32 = part.len() as u32;
    out.push((n % 256) as u8);
    out.push((n / 256 % 256) as u8);
    out.push((n / 65536 % 256) as u8);
    out.push((n / 16777216) as u8);
    assert(out@ =~= old(out)@ + sized(part@));
}

/// The message that the digest is computed over, see `hash_message`.
pub fn build_hash_message(
    kernel: &[u8],
    ramdisk: &[u8],
    second: &[u8],
    recovery_dtbo: Option<&[u8]>,
    dtb: Option<&[u8]>,
) -> (r: Vec<u8>)
    requires
        kernel@.len() <= u32::MAX,
        ramdisk@.len() <= u32::MAX,
        second@.len() <= u32::MAX,
        recovery_dtbo matches Some(p) ==> p@.len() <= u32::MAX,
        dtb matches Some(p) ==> p@.len() <= u32::MAX,
    ensures
        r@ == hash_message(
            kernel@,
            ramdisk@,
            second@,
            match recovery_dtbo {
                Some(p) => Some(p@),
                None => None,
            },
            match dtb {
                Some(p) => Some(p@),
                None => None,
            },
        ),
{
    let mut out: Vec<u8> = Vec::new();
    push_sized(&mut out, kernel);
    push_sized(&mut out, ramdisk);
    push_sized(&mut out, second);
    match recovery_dtbo {
        Some(p) => push_sized(&mut out, p),
        None => {},
    }
    match dtb {
        Some(p) => push_sized(&mut out, p),
        None => {},
    }
    assert(out@ =~= hash_message(
        kernel@,
        ramdisk@,
        second@,
        match recovery_dtbo {
            Some(p) => Some(p@),
            None => None,
        },
        match dtb {
            Some(p) => Some(p@),
            None => None,
        },
    ));
    out
}

/// The 32 bytes that a header stores for the digest `d` of at most 32 bytes.
pub fn pad_digest(d: &[u8]) -> (r: [u8; 32])
    requires
        d@.len() <= 32,
    ensures
        r@ == padded32(d@),
{
    let mut r: [u8; 32] = [0u8; 32];
    let mut i: usize = 0;
    while i < d.len()
        invariant
            i <= d@.len() <= 32,
            r@.len() == 32,
            forall|j: int| 0 <= j < i ==> r@[j] == d@[j],
            forall|j: int| i <= j < 32 ==> r@[j] == 0,
        decreases d@.len() - i,
    {
        r[i] = d[i];
        i = i + 1;
    }
    assert(r@ =~= padded32(d@));
    r
}

/// The digest of `message` by `alg`, as a header stores it.
pub fn digest_of(alg: HashAlgorithm, message: &[u8]) -> (r: [u8; 32])
    ensures
        r@ == stored_digest(alg, message@),
{
    match alg {
        HashAlgorithm::Sha1 => {
            let d = sha1_digest(message);
            pad_digest(&d)
        },
        HashAlgorithm::Sha256 => {
            let d = sha256_digest(message);
            let r = pad_digest(&d);
            assert(padded32(d@) =~= d@);
            r
        },
    }
}

impl HeaderV0 {
    /// The algorithm that the stored digest looks to be made with.
    pub open spec fn spec_digest_algorithm(self) -> HashAlgorithm {
        if looks_like_sha1(self.hash_digest@) {
            HashAlgorithm::Sha1
        } else {
            HashAlgorithm::Sha256
        }
    }

    /// The algorithm that the stored digest looks to be made with: SHA-1
    /// where its last 12 bytes are zero, else SHA-256.
    pub fn digest_algorithm(&self) -> (r: HashAlgorithm)
        ensures
            r == self.spec_digest_algorithm(),
    {
        if is_sha1_digest(&self.hash_digest) {
            HashAlgorithm::Sha1
        } else {
            HashAlgorithm::Sha256
        }
    }

    /// The digest of the given parts that `mkbootimg` would store, by `alg`.
    /// The recovery DTBO is given for versions 1 and 2 and the DTB for
    /// version 2; a part that is not given is left out of the digest.
    pub fn compute_hash_digest(
        alg: HashAlgorithm,
        kernel: &[u8],
        ramdisk: &[u8],
        second: &[u8],
        recovery_dtbo: Option<&[u8]>,
        dtb: Option<&[u8]>,
    ) -> (r: [u8; 32])
        requires
            kernel@.len() <= u32::MAX,
            ramdisk@.len() <= u32::MAX,
            second@.len() <= u32::MAX,
            recovery_dtbo matches Some(p) ==> p@.len() <= u32::MAX,
            dtb matches Some(p) ==> p@.len() <= u32::MAX,
        ensures
            r@ == stored_digest(
                alg,
                hash_message(
                    kernel@,
                    ramdisk@,
                    second@,
                    match recovery_dtbo {
                        Some(p) => Some(p@),
                        None => None,
                    },
                    match dtb {
                        Some(p) => Some(p@),
                        None => None,
                    },
                ),
            ),
    {
        let message = build_hash_message(kernel, ramdisk, second, recovery_dtbo, dtb);
        digest_of(alg, &message)
    }
}

impl HeaderV0 {
    /// The parts that the stored digest covers, in order: the kernel, the
    /// ramdisk and the second bootloader, then the recovery DTBO for versions
    /// 1 and 2 and the DTB for version 2.
    pub open spec fn spec_digest_parts(self) -> Seq<Part> {
        seq![
            Part { kind: PartKind::Kernel, position: self.kernel_pos() as u64, size: self.kernel_size },
            Part { kind: PartKind::Ramdisk, position: self.ramdisk_pos() as u64, size: self.ramdisk_size },
            Part {
                kind: PartKind::SecondBootloader,
                position: self.second_pos() as u64,
                size: self.second_bootloader_size,
            },
        ] + match self.versioned {
            HeaderV0Versioned::V0 => Seq::empty(),
            HeaderV0Versioned::V1 { recovery_dtbo_size, .. } => seq![
                Part {
                    kind: PartKind::RecoveryDtbo,
                    position: self.recovery_dtbo_pos() as u64,
                    size: recovery_dtbo_size,
                },
            ],
            HeaderV0Versioned::V2 { recovery_dtbo_size, dtb_size, .. } => seq![
                Part {
                    kind: PartKind::RecoveryDtbo,
                    position: self.recovery_dtbo_pos() as u64,
                    size: recovery_dtbo_size,
                },
                Part { kind: PartKind::Dtb, position: self.dtb_pos() as u64, size: dtb_size },
            ],
        }
    }

    /// The parts that the stored digest covers, see `spec_digest_parts`.
    pub fn digest_parts(&self) -> (r: Vec<Part>)
        requires
            self.wf(),
        ensures
            r@ == self.spec_digest_parts(),
    {
        let mut parts: Vec<Part> = Vec::new();
        parts.push(
            Part { kind: PartKind::Kernel, position: self.kernel_position(), size: self.kernel_size },
        );
        parts.push(
            Part {
                kind: PartKind::Ramdisk,
                position: self.ramdisk_position(),
                size: self.ramdisk_size,
            },
        );
        parts.push(
            Part {
                kind: PartKind::SecondBootloader,
                position: self.second_bootloader_position(),
                size: self.second_bootloader_size,
            },
        );
        match self.versioned {
            HeaderV0Versioned::V0 => {},
            HeaderV0Versioned::V1 { recovery_dtbo_size, .. } => {
                parts.push(
                    Part {
                        kind: PartKind::RecoveryDtbo,
                        position: self.recovery_dtbo_position(),
                        size: recovery_dtbo_size,
                    },
                );
            },
            HeaderV0Versioned::V2 { recovery_dtbo_size, dtb_size, .. } => {
                parts.push(
                    Part {
                        kind: PartKind::RecoveryDtbo,
                        position: self.recovery_dtbo_position(),
                        size: recovery_dtbo_size,
                    },
                );
                let position = match self.dtb_position() {
                    Some(p) => p,
                    None => 0,
                };
                parts.push(Part { kind: PartKind::Dtb, position, size: dtb_size });
            },
        }
        assert(parts@ =~= self.spec_digest_parts());
        parts
    }

    /// The digest of the contents of the parts that `digest_parts` lists, in
    /// that order, by the algorithm that the stored digest looks to be made
    /// with: what the extended listing compares with the stored digest.
    pub fn computed_hash_digest(&self, contents: &Vec<Vec<u8>>) -> (r: [u8; 32])
        requires
            contents@.len() == self.spec_digest_parts().len(),
            forall|i: int| 0 <= i < contents@.len() ==> #[trigger] contents@[i]@.len() <= u32::MAX,
        ensures
            r@ == stored_digest(
                self.spec_digest_algorithm(),
                hash_message(
                    contents@[0]@,
                    contents@[1]@,
                    contents@[2]@,
                    if contents@.len() > 3 {
                        Some(contents@[3]@)
                    } else {
                        None
                    },
                    if contents@.len() > 4 {
                        Some(contents@[4]@)
                    } else {
                        None
                    },
                ),
            ),
    {
        let alg = self.digest_algorithm();
        let n = contents.len();
        assert(contents@[0]@.len() <= u32::MAX);
        assert(contents@[1]@.len() <= u32::MAX);
        assert(contents@[2]@.len() <= u32::MAX);
        let recovery_dtbo: Option<&[u8]> = if n > 3 {
            assert(contents@[3]@.len() <= u32::MAX);
            Some(contents[3].as_slice())
        } else {
            None
        };
        let dtb: Option<&[u8]> = if n > 4 {
            assert(contents@[4]@.len() <= u32::MAX);
            Some(contents[4].as_slice())
        } else {
            None
        };
        HeaderV0::compute_hash_digest(
            alg,
            contents[0].as_slice(),
            contents[1].as_slice(),
            contents[2].as_slice(),
            recovery_dtbo,
            dtb,
        )
    }
}

/// The parts that the digest covers: the kernel, the ramdisk and the second
/// bootloader for every version, then one more, the recovery DTBO, from
/// version 1 on, and one more again, the DTB, for version 2 — each at its
/// offset and with the size that the header gives.
pub proof fn lemma_digest_parts(h: HeaderV0)
    ensures
        ({
            let d = h.spec_digest_parts();
            let version = version_of(Header::V0(h));
            &&& d.len() == 3 + version
            &&& d[0] == Part { kind: PartKind::Kernel, position: h.kernel_pos() as u64, size: h.kernel_size }
            &&& d[1] == Part {
                kind: PartKind::Ramdisk,
                position: h.ramdisk_pos() as u64,
                size: h.ramdisk_size,
            }
            &&& d[2] == Part {
                kind: PartKind::SecondBootloader,
                position: h.second_pos() as u64,
                size: h.second_bootloader_size,
            }
            &&& match h.versioned {
                HeaderV0Versioned::V0 => version == 0,
                HeaderV0Versioned::V1 { recovery_dtbo_size, .. } => version == 1 && d[3] == Part {
                    kind: PartKind::RecoveryDtbo,
                    position: h.recovery_dtbo_pos() as u64,
                    size: recovery_dtbo_size,
                },
                HeaderV0Versioned::V2 { recovery_dtbo_size, dtb_size, .. } => version == 2 && d[3]
                    == Part {
                    kind: PartKind::RecoveryDtbo,
                    position: h.recovery_dtbo_pos() as u64,
                    size: recovery_dtbo_size,
                } && d[4] == Part {
                    kind: PartKind::Dtb,
                    position: h.dtb_pos() as u64,
                    size: dtb_size,
                },
            }
        }),
{
}

/// The message that the digest is computed over holds, in order, each part
/// followed by its length as a little-endian `u32`; the recovery DTBO and the
/// DTB only where given.
#[verifier::rlimit(60)]
pub proof fn lemma_hash_message(
    k: Seq<u8>,
    r: Seq<u8>,
    s: Seq<u8>,
    o: Option<Seq<u8>>,
    d: Option<Seq<u8>>,
)
    requires
        k.len() <= u32::MAX,
        r.len() <= u32::MAX,
        s.len() <= u32::MAX,
        o matches Some(p) ==> p.len() <= u32::MAX,
        d matches Some(p) ==> p.len() <= u32::MAX,
    ensures
        ({
            let m = hash_message(k, r, s, o, d);
            let a: int = k.len() as int + 4;
            let b: int = a + r.len() as int + 4;
            let c: int = b + s.len() as int + 4;
            let e: int = c + match o {
                Some(p) => p.len() as int + 4,
                None => 0int,
            };
            &&& m.len() == e + match d {
                Some(p) => p.len() as int + 4,
                None => 0int,
            }
            &&& m.subrange(0, k.len() as int) == k
            &&& le32(m, k.len() as int) == k.len()
            &&& m.subrange(a, a + r.len() as int) == r
            &&& le32(m, a + r.len() as int) == r.len()
            &&& m.subrange(b, b + s.len() as int) == s
            &&& le32(m, b + s.len() as int) == s.len()
            &&& (o matches Some(p) ==> m.subrange(c, c + p.len() as int) == p && le32(m, c + p.len() as int)
                == p.len())
            &&& (d matches Some(p) ==> m.subrange(e, e + p.len() as int) == p && le32(m, e + p.len() as int)
                == p.len())
        }),
{
    let m = hash_message(k, r, s, o, d);
    let po = optional_sized(o);
    let pd = optional_sized(d);
    let q1 = sized(k);
    let q2 = q1 + sized(r);
    let q3 = q2 + sized(s);
    let q4 = q3 + po;
    assert(m == q4 + pd);
    lemma_sized_end(Seq::empty(), k);
    assert(Seq::<u8>::empty() + sized(k) =~= q1);
    lemma_sized_end(q1, r);
    lemma_sized_end(q2, s);
    // the pieces of each prefix stay where they are in the whole message
    lemma_prefix_kept(q1, sized(r) + sized(s) + po + pd, 0, k.len() as int);
    assert(m =~= q1 + (sized(r) + sized(s) + po + pd));
    lemma_prefix_kept(q2, sized(s) + po + pd, q1.len() as int, r.len() as int);
    assert(m =~= q2 + (sized(s) + po + pd));
    lemma_prefix_kept(q3, po + pd, q2.len() as int, s.len() as int);
    assert(m =~= q3 + (po + pd));
    if let Some(p) = o {
        lemma_sized_end(q3, p);
        lemma_prefix_kept(q4, pd, q3.len() as int, p.len() as int);
    }
    if let Some(p) = d {
        lemma_sized_end(q4, p);
    }
}

/// `sized(p)` for a part that is given, nothing for one that is not.
pub open spec fn optional_sized(part: Option<Seq<u8>>) -> Seq<u8> {
    match part {
        Some(p) => sized(p),
        None => Seq::empty(),
    }
}

/// `p` stands right after `x` in `x + sized(p)`, followed by its length.
proof fn lemma_sized_end(x: Seq<u8>, p: Seq<u8>)
    requires
        p.len() <= u32::MAX,
    ensures
        (x + sized(p)).subrange(x.len() as int, x.len() + p.len() as int) == p,
        le32(x + sized(p), x.len() + p.len() as int) == p.len(),
        (x + sized(p)).len() == x.len() + p.len() + 4,
{
    lemma_sized_at(x, p, Seq::empty());
    assert(x + sized(p) + Seq::<u8>::empty() =~= x + sized(p));
}

/// Bytes of `q` (a part of `len` bytes at `i`, and the four after it) stay
/// where they are when more bytes follow `q`.
proof fn lemma_prefix_kept(q: Seq<u8>, rest: Seq<u8>, i: int, len: int)
    requires
        0 <= i,
        0 <= len,
        i + len + 4 <= q.len(),
    ensures
        (q + rest).subrange(i, i + len) == q.subrange(i, i + len),
        le32(q + rest, i + len) == le32(q, i + len),
{
    assert((q + rest).subrange(i, i + len) =~= q.subrange(i, i + len));
    assert((q + rest)[i + len] == q[i + len]);
    assert((q + rest)[i + len + 1] == q[i + len + 1]);
    assert((q + rest)[i + len + 2] == q[i + len + 2]);
    assert((q + rest)[i + len + 3] == q[i + len + 3]);
}

/// In `x + sized(p) + y`, `p` stands after `x`, followed by its length.
proof fn lemma_sized_at(x: Seq<u8>, p: Seq<u8>, y: Seq<u8>)
    requires
        p.len() <= u32::MAX,
    ensures
        ({
            let m = x + sized(p) + y;
            &&& m.subrange(x.len() as int, x.len() + p.len() as int) == p
            &&& le32(m, x.len() + p.len() as int) == p.len()
        }),
{
    let m = x + sized(p) + y;
    let at: int = x.len() + p.len() as int;
    assert(m.subrange(x.len() as int, at) =~= p);
    assert(m.subrange(at, at + 4) =~= le32_bytes(p.len() as u32));
    crate::header::lemma_le32_bytes(m, at, p.len() as u32);
}

} // verus!
