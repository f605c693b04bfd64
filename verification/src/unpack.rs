//! What `unpack_bootimg` does with a parsed header: which parts of the image
//! it extracts, and the text it prints, either the information listing or
//! the arguments that rebuild the image with `mkbootimg`.
use vstd::prelude::*;
use vstd::string::StringSliceAdditionalSpecFns;
use crate::bytestring::{lemma_until_null, shell_quote, shell_quoted, take_until_null, until_null};
use crate::header::{Header, HeaderV0, HeaderV0Versioned, HeaderV3, recovery_dtbo_size_of, version_of};
use crate::text::{
    decimal, hex32, hex64, hex_bytes, hex_text, push_bytes, push_decimal, push_hex32, push_hex64,
    push_str,
};
use crate::version::{patch_text, unpack_patch, unpack_version, version_text};

verus! {

/// A part of a boot image.
#[derive(Clone, Copy, Debug, PartialEq, Eq, Structural)]
pub enum PartKind {
    Kernel,
    Ramdisk,
    SecondBootloader,
    RecoveryDtbo,
    Dtb,
    BootSignature,
}

/// A part to extract: its kind, where it starts and how many bytes it has.
#[derive(Clone, Copy, Debug, PartialEq, Eq, Structural)]
pub struct Part {
    pub kind: PartKind,
    pub position: u64,
    pub size: u32,
}

impl PartKind {
    /// The name of the file that the part is extracted to.
    pub fn file_name(&self) -> (r: &'static str)
        ensures
            r@ == (match self {
                PartKind::Kernel => "kernel"@,
                PartKind::Ramdisk => "ramdisk"@,
                PartKind::SecondBootloader => "second"@,
                PartKind::RecoveryDtbo => "recovery_dtbo"@,
                PartKind::Dtb => "dtb"@,
                PartKind::BootSignature => "boot_signature"@,
            }),
    {
        match self {
            PartKind::Kernel => "kernel",
            PartKind::Ramdisk => "ramdisk",
            PartKind::SecondBootloader => "second",
            PartKind::RecoveryDtbo => "recovery_dtbo",
            PartKind::Dtb => "dtb",
            PartKind::BootSignature => "boot_signature",
        }
    }
}

/// `part` alone where its size is not zero, else nothing.
pub open spec fn if_present(part: Part) -> Seq<Part> {
    if part.size != 0 {
        seq![part]
    } else {
        Seq::empty()
    }
}

/// The parts of a version 0, 1 or 2 image after the ramdisk that are
/// extracted: each that the version has and whose size is not zero.
pub open spec fn v0_extra_parts(h: HeaderV0) -> Seq<Part> {
    if_present(
        Part {
            kind: PartKind::SecondBootloader,
            position: h.second_pos() as u64,
            size: h.second_bootloader_size,
        },
    ) + if_present(
        Part {
            kind: PartKind::RecoveryDtbo,
            position: h.recovery_dtbo_pos() as u64,
            size: recovery_dtbo_size_of(h.versioned),
        },
    ) + match h.versioned {
        HeaderV0Versioned::V2 { dtb_size, .. } => if_present(
            Part { kind: PartKind::Dtb, position: h.dtb_pos() as u64, size: dtb_size },
        ),
        _ => Seq::empty(),
    }
}

/// The boot signature of a version 4 image, where its size is not zero.
pub open spec fn v3_extra_parts(h: HeaderV3) -> Seq<Part> {
    match h.v4_signature_size {
        Some(size) => if_present(
            Part { kind: PartKind::BootSignature, position: h.bootsig_pos() as u64, size },
        ),
        None => Seq::empty(),
    }
}

/// The parts that are extracted from an image with header `h`, in order:
/// the kernel and the ramdisk always, then the others that are present.
pub open spec fn parts_to_extract(h: Header) -> Seq<Part> {
    seq![
        Part { kind: PartKind::Kernel, position: h.kernel_pos() as u64, size: h.spec_kernel_size() },
        Part { kind: PartKind::Ramdisk, position: h.ramdisk_pos() as u64, size: h.spec_ramdisk_size() },
    ] + match h {
        Header::V0(v) => v0_extra_parts(v),
        Header::V3(v) => v3_extra_parts(v),
    }
}

/// Appends `part` to `parts` where its size is not zero.
fn push_if_present(parts: &mut Vec<Part>, part: Part)
    ensures
        final(parts)@ == old(parts)@ + if_present(part),
{
    if part.size != 0 {
        parts.push(part);
    }
    assert(parts@ =~= old(parts)@ + if_present(part));
}

/// The parts to extract from the image, see `parts_to_extract`.
pub fn extraction_plan(hdr: &Header) -> (r: Vec<Part>)
    requires
        hdr.wf(),
    ensures
        r@ == parts_to_extract(*hdr),
{
    let mut parts: Vec<Part> = Vec::new();
    parts.push(
        Part { kind: PartKind::Kernel, position: hdr.kernel_position(), size: hdr.kernel_size() },
    );
    parts.push(
        Part { kind: PartKind::Ramdisk, position: hdr.ramdisk_position(), size: hdr.ramdisk_size() },
    );
    let ghost base = parts@;
    match hdr {
        Header::V0(v) => {
            push_if_present(
                &mut parts,
                Part {
                    kind: PartKind::SecondBootloader,
                    position: v.second_bootloader_position(),
                    size: v.second_bootloader_size,
                },
            );
            push_if_present(
                &mut parts,
                Part {
                    kind: PartKind::RecoveryDtbo,
                    position: v.recovery_dtbo_position(),
                    size: v.recovery_dtbo_size(),
                },
            );
            match v.versioned {
                HeaderV0Versioned::V2 { dtb_size, .. } => {
                    let position = match v.dtb_position() {
                        Some(p) => p,
                        None => 0,
                    };
                    push_if_present(
                        &mut parts,
                        Part { kind: PartKind::Dtb, position, size: dtb_size },
                    );
                },
                _ => {},
            }
            assert(parts@ =~= base + v0_extra_parts(*v));
        },
        Header::V3(v) => {
            match v.v4_signature_size {
                Some(size) => {
                    push_if_present(
                        &mut parts,
                        Part { kind: PartKind::BootSignature, position: v.bootsig_position(), size },
                    );
                },
                None => {},
            }
            assert(parts@ =~= base + v3_extra_parts(*v));
        },
    }
    parts
}

/// `label`, then `value`, then a newline.
pub open spec fn line(label: &str, value: Seq<u8>) -> Seq<u8> {
    label.spec_bytes() + value + "\n".spec_bytes()
}

/// The sizes and load addresses of a version 0, 1 or 2 header.
pub open spec fn info_layout_v0(h: HeaderV0) -> Seq<u8> {
    line("kernel_size: ", decimal(h.kernel_size as nat)) + line(
        "kernel load address: ",
        hex32(h.kernel_addr),
    ) + line("ramdisk size: ", decimal(h.ramdisk_size as nat)) + line(
        "ramdisk load address: ",
        hex32(h.ramdisk_addr),
    ) + line("second bootloader size: ", decimal(h.second_bootloader_size as nat)) + line(
        "second bootloader load address: ",
        hex32(h.second_bootloader_addr),
    ) + line("kernel tags load address: ", hex32(h.tags_addr)) + line(
        "page size: ",
        decimal(h.page_size as nat),
    )
}

/// The stored digest and the computed one, where one was computed.
pub open spec fn info_digests(h: HeaderV0, computed: Option<Seq<u8>>) -> Seq<u8> {
    match computed {
        Some(d) => line("hash digest in header: ", hex_bytes(h.hash_digest@)) + line(
            "computed hash digest: ",
            hex_bytes(d),
        ),
        None => Seq::empty(),
    }
}

/// The sizes of a version 3 or 4 header.
pub open spec fn info_layout_v3(h: HeaderV3) -> Seq<u8> {
    line("kernel_size: ", decimal(h.kernel_size as nat)) + line(
        "ramdisk size: ",
        decimal(h.ramdisk_size as nat),
    )
}

/// The OS version, patch level and header version.
pub open spec fn info_versions(h: Header) -> Seq<u8> {
    line("os version: ", version_text(unpack_version(h.spec_osversionpatch().0))) + line(
        "os patch level: ",
        patch_text(unpack_patch(h.spec_osversionpatch().0)),
    ) + line("boot image header version: ", decimal(version_of(h) as nat))
}

/// The fields that versions 1 and 2 add.
pub open spec fn info_versioned(v: HeaderV0Versioned) -> Seq<u8> {
    match v {
        HeaderV0Versioned::V0 => Seq::empty(),
        HeaderV0Versioned::V1 { recovery_dtbo_size, recovery_dtbo_addr } => line(
            "recovery dtbo size: ",
            decimal(recovery_dtbo_size as nat),
        ) + line("recovery dtbo offset: ", hex64(recovery_dtbo_addr)) + line(
            "boot header size: ",
            decimal(1648),
        ),
        HeaderV0Versioned::V2 { recovery_dtbo_size, recovery_dtbo_addr, dtb_size, dtb_addr } =>
            line("recovery dtbo size: ", decimal(recovery_dtbo_size as nat)) + line(
            "recovery dtbo offset: ",
            hex64(recovery_dtbo_addr),
        ) + line("boot header size: ", decimal(1660)) + line("dtb size: ", decimal(dtb_size as nat))
            + line("dtb address: ", hex64(dtb_addr)),
    }
}

/// The strings of a version 0, 1 or 2 header, then the fields of versions 1
/// and 2.
pub open spec fn info_strings_v0(h: HeaderV0) -> Seq<u8> {
    line("product name: ", until_null(h.board_name@)) + line(
        "command line args: ",
        until_null(h.cmdline@.subrange(0, 512)),
    ) + line("additional command line args: ", until_null(h.cmdline@.subrange(512, 1536)))
        + info_versioned(h.versioned)
}

/// The command line and boot signature size of a version 3 or 4 header.
pub open spec fn info_strings_v3(h: HeaderV3) -> Seq<u8> {
    line("command line args: ", until_null(h.cmdline@)) + match h.v4_signature_size {
        Some(size) => line("boot.img signature size: ", decimal(size as nat)),
        None => Seq::empty(),
    }
}

/// The information listing of `unpack_bootimg` for header `h`. `computed` is
/// the digest computed over the parts of a version 0, 1 or 2 image, which the
/// extended listing shows next to the stored one.
pub open spec fn info_text(h: Header, computed: Option<Seq<u8>>) -> Seq<u8> {
    "boot magic: ANDROID!\n".spec_bytes() + match h {
        Header::V0(v) => info_layout_v0(v) + info_digests(v, computed),
        Header::V3(v) => info_layout_v3(v),
    } + info_versions(h) + match h {
        Header::V0(v) => info_strings_v0(v),
        Header::V3(v) => info_strings_v3(v),
    }
}

/// Appends `line(label, decimal(n))`.
fn push_line_decimal(out: &mut Vec<u8>, label: &str, n: u64)
    ensures
        final(out)@ == old(out)@ + line(label, decimal(n as nat)),
{
    push_str(out, label);
    push_decimal(out, n);
    push_str(out, "\n");
    assert(out@ =~= old(out)@ + line(label, decimal(n as nat)));
}

/// Appends `line(label, hex32(n))`.
fn push_line_hex32(out: &mut Vec<u8>, label: &str, n: u32)
    ensures
        final(out)@ == old(out)@ + line(label, hex32(n)),
{
    push_str(out, label);
    push_hex32(out, n);
    push_str(out, "\n");
    assert(out@ =~= old(out)@ + line(label, hex32(n)));
}

/// Appends `line(label, hex64(n))`.
fn push_line_hex64(out: &mut Vec<u8>, label: &str, n: u64)
    ensures
        final(out)@ == old(out)@ + line(label, hex64(n)),
{
    push_str(out, label);
    push_hex64(out, n);
    push_str(out, "\n");
    assert(out@ =~= old(out)@ + line(label, hex64(n)));
}

/// Appends `line(label, value)`.
fn push_line_bytes(out: &mut Vec<u8>, label: &str, value: &[u8])
    ensures
        final(out)@ == old(out)@ + line(label, value@),
{
    push_str(out, label);
    push_bytes(out, value);
    push_str(out, "\n");
    assert(out@ =~= old(out)@ + line(label, value@));
}

/// Appends `info_layout_v0(h) + info_digests(h, computed)`.
fn push_info_layout_v0(out: &mut Vec<u8>, h: &HeaderV0, computed: Option<&[u8; 32]>)
    ensures
        final(out)@ == old(out)@ + info_layout_v0(*h) + info_digests(
            *h,
            match computed {
                Some(d) => Some(d@),
                None => None,
            },
        ),
{
    push_line_decimal(out, "kernel_size: ", h.kernel_size as u64);
    push_line_hex32(out, "kernel load address: ", h.kernel_addr);
    push_line_decimal(out, "ramdisk size: ", h.ramdisk_size as u64);
    push_line_hex32(out, "ramdisk load address: ", h.ramdisk_addr);
    push_line_decimal(out, "second bootloader size: ", h.second_bootloader_size as u64);
    push_line_hex32(out, "second bootloader load address: ", h.second_bootloader_addr);
    push_line_hex32(out, "kernel tags load address: ", h.tags_addr);
    push_line_decimal(out, "page size: ", h.page_size as u64);
    assert(out@ =~= old(out)@ + info_layout_v0(*h));
    match computed {
        Some(d) => {
            let stored = hex_text(&h.hash_digest);
            push_line_bytes(out, "hash digest in header: ", &stored);
            let fresh = hex_text(d);
            push_line_bytes(out, "computed hash digest: ", &fresh);
        },
        None => {},
    }
    assert(out@ =~= old(out)@ + info_layout_v0(*h) + info_digests(
        *h,
        match computed {
            Some(d) => Some(d@),
            None => None,
        },
    ));
}

/// Appends `info_versioned(v)`.
fn push_info_versioned(out: &mut Vec<u8>, v: HeaderV0Versioned)
    ensures
        final(out)@ == old(out)@ + info_versioned(v),
{
    match v {
        HeaderV0Versioned::V0 => {},
        HeaderV0Versioned::V1 { recovery_dtbo_size, recovery_dtbo_addr } => {
            push_line_decimal(out, "recovery dtbo size: ", recovery_dtbo_size as u64);
            push_line_hex64(out, "recovery dtbo offset: ", recovery_dtbo_addr);
            push_line_decimal(out, "boot header size: ", 1648);
        },
        HeaderV0Versioned::V2 { recovery_dtbo_size, recovery_dtbo_addr, dtb_size, dtb_addr } => {
            push_line_decimal(out, "recovery dtbo size: ", recovery_dtbo_size as u64);
            push_line_hex64(out, "recovery dtbo offset: ", recovery_dtbo_addr);
            push_line_decimal(out, "boot header size: ", 1660);
            push_line_decimal(out, "dtb size: ", dtb_size as u64);
            push_line_hex64(out, "dtb address: ", dtb_addr);
        },
    }
    assert(out@ =~= old(out)@ + info_versioned(v));
}

/// Appends `info_strings_v0(h)`.
fn push_info_strings_v0(out: &mut Vec<u8>, h: &HeaderV0)
    ensures
        final(out)@ == old(out)@ + info_strings_v0(*h),
{
    push_line_bytes(out, "product name: ", take_until_null(h.board_name.as_slice()));
    let (cmd, extra) = h.cmdline.as_slice().split_at(512);
    push_line_bytes(out, "command line args: ", take_until_null(cmd));
    push_line_bytes(out, "additional command line args: ", take_until_null(extra));
    push_info_versioned(out, h.versioned);
    assert(out@ =~= old(out)@ + info_strings_v0(*h));
}

/// Appends `info_strings_v3(h)`.
fn push_info_strings_v3(out: &mut Vec<u8>, h: &HeaderV3)
    ensures
        final(out)@ == old(out)@ + info_strings_v3(*h),
{
    push_line_bytes(out, "command line args: ", take_until_null(h.cmdline.as_slice()));
    match h.v4_signature_size {
        Some(size) => push_line_decimal(out, "boot.img signature size: ", size as u64),
        None => {},
    }
    assert(out@ =~= old(out)@ + info_strings_v3(*h));
}

/// The information listing of `unpack_bootimg`, see `info_text`. With
/// `computed`, the listing of a version 0, 1 or 2 header is the extended one
/// and shows that digest; a version 3 or 4 header has no digest to show.
#[verifier::rlimit(30)]
pub fn info_fmt(hdr: &Header, computed: Option<&[u8; 32]>) -> (r: Vec<u8>)
    ensures
        r@ == info_text(
            *hdr,
            match computed {
                Some(d) => Some(d@),
                None => None,
            },
        ),
{
    let mut out: Vec<u8> = Vec::new();
    push_str(&mut out, "boot magic: ANDROID!\n");
    match hdr {
        Header::V0(v) => push_info_layout_v0(&mut out, v, computed),
        Header::V3(v) => {
            push_line_decimal(&mut out, "kernel_size: ", v.kernel_size as u64);
            push_line_decimal(&mut out, "ramdisk size: ", v.ramdisk_size as u64);
        },
    }
    let ghost after_layout = out@;
    let osvp = hdr.osversionpatch();
    let version = osvp.version().render();
    push_line_bytes(&mut out, "os version: ", &version);
    let patch = osvp.patch().render();
    push_line_bytes(&mut out, "os patch level: ", &patch);
    push_line_decimal(&mut out, "boot image header version: ", hdr.header_version() as u64);
    assert(out@ =~= after_layout + info_versions(*hdr));
    match hdr {
        Header::V0(v) => push_info_strings_v0(&mut out, v),
        Header::V3(v) => push_info_strings_v3(&mut out, v),
    }
    assert(out@ =~= info_text(
        *hdr,
        match computed {
            Some(d) => Some(d@),
            None => None,
        },
    ));
    out
}

/// The paths that the parts are extracted to, as bytes.
#[derive(Debug)]
pub struct OutPaths {
    pub kernel: Vec<u8>,
    pub ramdisk: Vec<u8>,
    pub second: Vec<u8>,
    pub recovery_dtbo: Vec<u8>,
    pub dtb: Vec<u8>,
}

/// The separator between arguments: a null byte or a space.
pub open spec fn separator(null: bool) -> u8 {
    if null {
        0u8
    } else {
        32u8
    }
}

/// A separator, `name`, a separator, `value`.
pub open spec fn flag(sep: u8, name: &str, value: Seq<u8>) -> Seq<u8> {
    seq![sep] + name.spec_bytes() + seq![sep] + value
}

/// A string as an argument: raw where arguments are null-separated, quoted
/// for a shell where they are space-separated.
pub open spec fn quoted_arg(s: Seq<u8>, null: bool) -> Seq<u8> {
    if null {
        s
    } else {
        shell_quoted(s)
    }
}

/// A string field as an argument: the bytes before its first null, see
/// `quoted_arg`.
pub open spec fn string_arg(field: Seq<u8>, null: bool) -> Seq<u8> {
    quoted_arg(until_null(field), null)
}

/// The whole command line of a version 0, 1 or 2 header: the command line
/// (its first 512 bytes) before its first null, followed by the additional
/// command line (its last 1024 bytes) before its first null.
pub open spec fn full_cmdline_v0(h: HeaderV0) -> Seq<u8> {
    until_null(h.cmdline@.subrange(0, 512)) + until_null(h.cmdline@.subrange(512, 1536))
}

/// The arguments for the parts after the ramdisk that a version 0, 1 or 2
/// image has and whose size is not zero.
pub open spec fn mkbootimg_parts_v0(h: HeaderV0, paths: OutPaths, sep: u8) -> Seq<u8> {
    (if h.second_bootloader_size != 0 {
        flag(sep, "--second", paths.second@)
    } else {
        Seq::empty()
    }) + (if recovery_dtbo_size_of(h.versioned) != 0 {
        flag(sep, "--recovery_dtbo", paths.recovery_dtbo@)
    } else {
        Seq::empty()
    }) + match h.versioned {
        HeaderV0Versioned::V2 { dtb_size, .. } => if dtb_size != 0 {
            flag(sep, "--dtb", paths.dtb@)
        } else {
            Seq::empty()
        },
        _ => Seq::empty(),
    }
}

/// The layout, board and command line arguments of a version 0, 1 or 2
/// header; the DTB offset only for version 2.
pub open spec fn mkbootimg_layout_v0(h: HeaderV0, null: bool) -> Seq<u8> {
    let sep = separator(null);
    flag(sep, "--pagesize", hex32(h.page_size)) + flag(sep, "--base", hex32(0)) + flag(
        sep,
        "--kernel_offset",
        hex32(h.kernel_addr),
    ) + flag(sep, "--ramdisk_offset", hex32(h.ramdisk_addr)) + flag(
        sep,
        "--second_offset",
        hex32(h.second_bootloader_addr),
    ) + flag(sep, "--tags_offset", hex32(h.tags_addr)) + match h.versioned {
        HeaderV0Versioned::V2 { dtb_addr, .. } => flag(sep, "--dtb_offset", hex64(dtb_addr)),
        _ => Seq::empty(),
    } + flag(sep, "--board", string_arg(h.board_name@, null)) + flag(
        sep,
        "--cmdline",
        quoted_arg(full_cmdline_v0(h), null),
    )
}

/// The `mkbootimg` arguments that rebuild an image with header `h` from the
/// parts extracted to `paths`, separated by null bytes (and ended by one) or by
/// spaces (and ended by a newline).
pub open spec fn mkbootimg_text(h: Header, paths: OutPaths, null: bool) -> Seq<u8> {
    mkbootimg_head(h, paths, null) + match h {
        Header::V0(v) => mkbootimg_parts_v0(v, paths, separator(null)) + mkbootimg_layout_v0(v, null),
        Header::V3(v) => flag(separator(null), "--cmdline", string_arg(v.cmdline@, null)),
    } + if null {
        seq![0u8]
    } else {
        seq![10u8]
    }
}

/// The arguments that every header gives: versions, kernel and ramdisk.
pub open spec fn mkbootimg_head(h: Header, paths: OutPaths, null: bool) -> Seq<u8> {
    let sep = separator(null);
    "--header_version".spec_bytes() + seq![sep] + decimal(version_of(h) as nat) + flag(
        sep,
        "--os_version",
        version_text(unpack_version(h.spec_osversionpatch().0)),
    ) + flag(sep, "--os_patch_level", patch_text(unpack_patch(h.spec_osversionpatch().0))) + flag(
        sep,
        "--kernel",
        paths.kernel@,
    ) + flag(sep, "--ramdisk", paths.ramdisk@)
}

/// Appends `flag(sep, name, value)`.
fn push_flag(out: &mut Vec<u8>, sep: u8, name: &str, value: &[u8])
    ensures
        final(out)@ == old(out)@ + flag(sep, name, value@),
{
    out.push(sep);
    push_str(out, name);
    out.push(sep);
    push_bytes(out, value);
    assert(out@ =~= old(out)@ + flag(sep, name, value@));
}

/// Appends `flag(sep, name, hex32(n))`.
fn push_flag_hex32(out: &mut Vec<u8>, sep: u8, name: &str, n: u32)
    ensures
        final(out)@ == old(out)@ + flag(sep, name, hex32(n)),
{
    out.push(sep);
    push_str(out, name);
    out.push(sep);
    push_hex32(out, n);
    assert(out@ =~= old(out)@ + flag(sep, name, hex32(n)));
}

/// `quoted_arg(s, null)` for a string without null bytes.
fn quoted_argument(s: &[u8], null: bool) -> (r: Vec<u8>)
    requires
        !s@.contains(0u8),
    ensures
        r@ == quoted_arg(s@, null),
{
    if null {
        let mut v: Vec<u8> = Vec::new();
        push_bytes(&mut v, s);
        assert(v@ =~= s@);
        v
    } else {
        shell_quote(s)
    }
}

/// `string_arg(field, null)`.
fn string_argument(field: &[u8], null: bool) -> (r: Vec<u8>)
    ensures
        r@ == string_arg(field@, null),
{
    let head = take_until_null(field);
    proof {
        lemma_until_null(field@);
    }
    quoted_argument(head, null)
}

/// `quoted_arg(full_cmdline_v0(h), null)`.
fn cmdline_argument_v0(h: &HeaderV0, null: bool) -> (r: Vec<u8>)
    ensures
        r@ == quoted_arg(full_cmdline_v0(*h), null),
{
    let (cmd, extra) = h.cmdline.as_slice().split_at(512);
    let cmd_head = take_until_null(cmd);
    let extra_head = take_until_null(extra);
    let mut joined: Vec<u8> = Vec::new();
    push_bytes(&mut joined, cmd_head);
    push_bytes(&mut joined, extra_head);
    proof {
        lemma_until_null(cmd@);
        lemma_until_null(extra@);
        assert(joined@ =~= full_cmdline_v0(*h));
        if joined@.contains(0u8) {
            let i = choose|i: int| 0 <= i < joined@.len() && joined@[i] == 0u8;
            if i < cmd_head@.len() {
                assert(cmd_head@[i] == 0u8);
            } else {
                assert(extra_head@[i - cmd_head@.len()] == 0u8);
            }
        }
    }
    quoted_argument(joined.as_slice(), null)
}

/// Appends `mkbootimg_parts_v0(h, *paths, separator(null))`.
fn push_mkbootimg_parts_v0(out: &mut Vec<u8>, h: &HeaderV0, paths: &OutPaths, null: bool)
    ensures
        final(out)@ == old(out)@ + mkbootimg_parts_v0(*h, *paths, separator(null)),
{
    let sep: u8 = if null {
        0
    } else {
        32
    };
    if h.second_bootloader_size != 0 {
        push_flag(out, sep, "--second", paths.second.as_slice());
    }
    if h.recovery_dtbo_size() != 0 {
        push_flag(out, sep, "--recovery_dtbo", paths.recovery_dtbo.as_slice());
    }
    match h.versioned {
        HeaderV0Versioned::V2 { dtb_size, .. } => {
            if dtb_size != 0 {
                push_flag(out, sep, "--dtb", paths.dtb.as_slice());
            }
        },
        _ => {},
    }
    assert(out@ =~= old(out)@ + mkbootimg_parts_v0(*h, *paths, sep));
}

/// Appends the layout arguments of `mkbootimg_layout_v0(h, null)`, up to the
/// board.
#[verifier::rlimit(30)]
fn push_mkbootimg_offsets_v0(out: &mut Vec<u8>, h: &HeaderV0, null: bool)
    ensures
        final(out)@ == old(out)@ + flag(separator(null), "--pagesize", hex32(h.page_size)) + flag(
            separator(null),
            "--base",
            hex32(0),
        ) + flag(separator(null), "--kernel_offset", hex32(h.kernel_addr)) + flag(
            separator(null),
            "--ramdisk_offset",
            hex32(h.ramdisk_addr),
        ) + flag(separator(null), "--second_offset", hex32(h.second_bootloader_addr)) + flag(
            separator(null),
            "--tags_offset",
            hex32(h.tags_addr),
        ),
{
    let sep: u8 = if null {
        0
    } else {
        32
    };
    push_flag_hex32(out, sep, "--pagesize", h.page_size);
    push_flag_hex32(out, sep, "--base", 0);
    push_flag_hex32(out, sep, "--kernel_offset", h.kernel_addr);
    push_flag_hex32(out, sep, "--ramdisk_offset", h.ramdisk_addr);
    push_flag_hex32(out, sep, "--second_offset", h.second_bootloader_addr);
    push_flag_hex32(out, sep, "--tags_offset", h.tags_addr);
    assert(out@ =~= old(out)@ + flag(separator(null), "--pagesize", hex32(h.page_size)) + flag(
        separator(null),
        "--base",
        hex32(0),
    ) + flag(separator(null), "--kernel_offset", hex32(h.kernel_addr)) + flag(
        separator(null),
        "--ramdisk_offset",
        hex32(h.ramdisk_addr),
    ) + flag(separator(null), "--second_offset", hex32(h.second_bootloader_addr)) + flag(
        separator(null),
        "--tags_offset",
        hex32(h.tags_addr),
    ));
}

/// Appends `mkbootimg_layout_v0(h, null)`.
#[verifier::rlimit(30)]
fn push_mkbootimg_layout_v0(out: &mut Vec<u8>, h: &HeaderV0, null: bool)
    ensures
        final(out)@ == old(out)@ + mkbootimg_layout_v0(*h, null),
{
    let sep: u8 = if null {
        0
    } else {
        32
    };
    push_mkbootimg_offsets_v0(out, h, null);
    match h.versioned {
        HeaderV0Versioned::V2 { dtb_addr, .. } => {
            let mut offset: Vec<u8> = Vec::new();
            push_hex64(&mut offset, dtb_addr);
            push_flag(out, sep, "--dtb_offset", &offset);
        },
        _ => {},
    }
    let board = string_argument(h.board_name.as_slice(), null);
    push_flag(out, sep, "--board", &board);
    let cmdline = cmdline_argument_v0(h, null);
    push_flag(out, sep, "--cmdline", &cmdline);
    assert(out@ =~= old(out)@ + mkbootimg_layout_v0(*h, null));
}

/// The `mkbootimg` arguments, see `mkbootimg_text`.
#[verifier::rlimit(30)]
pub fn mkbootimg_fmt(hdr: &Header, paths: &OutPaths, null: bool) -> (r: Vec<u8>)
    ensures
        r@ == mkbootimg_text(*hdr, *paths, null),
{
    let sep: u8 = if null {
        0
    } else {
        32
    };
    let mut out: Vec<u8> = Vec::new();
    push_str(&mut out, "--header_version");
    out.push(sep);
    push_decimal(&mut out, hdr.header_version() as u64);
    let osvp = hdr.osversionpatch();
    let version = osvp.version().render();
    push_flag(&mut out, sep, "--os_version", &version);
    let patch = osvp.patch().render();
    push_flag(&mut out, sep, "--os_patch_level", &patch);
    push_flag(&mut out, sep, "--kernel", paths.kernel.as_slice());
    push_flag(&mut out, sep, "--ramdisk", paths.ramdisk.as_slice());
    assert(out@ =~= mkbootimg_head(*hdr, *paths, null));
    match hdr {
        Header::V0(v) => {
            push_mkbootimg_parts_v0(&mut out, v, paths, null);
            push_mkbootimg_layout_v0(&mut out, v, null);
            assert(out@ =~= mkbootimg_head(*hdr, *paths, null) + mkbootimg_parts_v0(
                *v,
                *paths,
                separator(null),
            ) + mkbootimg_layout_v0(*v, null));
        },
        Header::V3(v) => {
            let cmdline = string_argument(v.cmdline.as_slice(), null);
            push_flag(&mut out, sep, "--cmdline", &cmdline);
        },
    }
    if null {
        out.push(0u8);
    } else {
        out.push(10u8);
    }
    assert(out@ =~= mkbootimg_text(*hdr, *paths, null));
    out
}

/// Whether some part in `plan` is of kind `kind`.
pub open spec fn lists(plan: Seq<Part>, kind: PartKind) -> bool {
    exists|i: int| 0 <= i < plan.len() && (#[trigger] plan[i]).kind == kind
}

/// The recovery DTBO size that a version 0, 1 or 2 header gives, read from its
/// versioned fields: none for version 0.
pub open spec fn recovery_dtbo_field(v: HeaderV0Versioned) -> Option<u32> {
    match v {
        HeaderV0Versioned::V0 => None,
        HeaderV0Versioned::V1 { recovery_dtbo_size, .. } => Some(recovery_dtbo_size),
        HeaderV0Versioned::V2 { recovery_dtbo_size, .. } => Some(recovery_dtbo_size),
    }
}

/// Every part of `plan` of kind `kind` is `part`.
pub open spec fn only_as(plan: Seq<Part>, kind: PartKind, part: Part) -> bool {
    forall|i: int| 0 <= i < plan.len() && (#[trigger] plan[i]).kind == kind ==> plan[i] == part
}

proof fn lemma_if_present_kind(part: Part, kind: PartKind)
    ensures
        lists(if_present(part), kind) <==> (part.size != 0 && part.kind == kind),
        only_as(if_present(part), kind, part),
{
    if part.size != 0 && part.kind == kind {
        assert(if_present(part)[0].kind == kind);
    }
}

proof fn lemma_concat_kind(a: Seq<Part>, b: Seq<Part>, kind: PartKind, part: Part)
    ensures
        lists(a + b, kind) <==> (lists(a, kind) || lists(b, kind)),
        only_as(a, kind, part) && only_as(b, kind, part) ==> only_as(a + b, kind, part),
{
    let c = a + b;
    if lists(c, kind) {
        let i = choose|i: int| 0 <= i < c.len() && (#[trigger] c[i]).kind == kind;
        if i < a.len() {
            assert(a[i] == c[i]);
        } else {
            assert(b[i - a.len()] == c[i]);
        }
    }
    if lists(a, kind) {
        let i = choose|i: int| 0 <= i < a.len() && (#[trigger] a[i]).kind == kind;
        assert(c[i] == a[i]);
    }
    if lists(b, kind) {
        let i = choose|i: int| 0 <= i < b.len() && (#[trigger] b[i]).kind == kind;
        assert(c[a.len() + i] == b[i]);
    }
    if only_as(a, kind, part) && only_as(b, kind, part) {
        assert forall|i: int| 0 <= i < c.len() && (#[trigger] c[i]).kind == kind implies c[i]
            == part by {
            if i < a.len() {
                assert(a[i] == c[i]);
            } else {
                assert(b[i - a.len()] == c[i]);
            }
        }
    }
}

/// What is extracted from a version 0, 1 or 2 image: the kernel first and the
/// ramdisk second, each at its offset and with its size; then the second
/// bootloader exactly where its size is not zero, the recovery DTBO exactly
/// where the header is of version 1 or 2 and its size is not zero, and the DTB
/// exactly where the header is of version 2 and its size is not zero, each at
/// its offset and with its size; never a boot signature.
#[verifier::rlimit(40)]
pub proof fn lemma_extraction_plan_v0(v: HeaderV0)
    requires
        v.wf(),
    ensures
        ({
            let plan = parts_to_extract(Header::V0(v));
            &&& plan.len() >= 2
            &&& plan[0] == Part { kind: PartKind::Kernel, position: v.page_size as u64, size: v.kernel_size }
            &&& plan[1] == Part {
                kind: PartKind::Ramdisk,
                position: v.ramdisk_pos() as u64,
                size: v.ramdisk_size,
            }
            &&& (lists(plan, PartKind::SecondBootloader) <==> v.second_bootloader_size != 0)
            &&& only_as(
                plan,
                PartKind::SecondBootloader,
                Part {
                    kind: PartKind::SecondBootloader,
                    position: v.second_pos() as u64,
                    size: v.second_bootloader_size,
                },
            )
            &&& (lists(plan, PartKind::RecoveryDtbo) <==> (recovery_dtbo_field(v.versioned) matches Some(
                s,
            ) && s != 0))
            &&& (recovery_dtbo_field(v.versioned) matches Some(s) ==> only_as(
                plan,
                PartKind::RecoveryDtbo,
                Part { kind: PartKind::RecoveryDtbo, position: v.recovery_dtbo_pos() as u64, size: s },
            ))
            &&& (lists(plan, PartKind::Dtb) <==> (v.versioned matches HeaderV0Versioned::V2 {
                dtb_size,
                ..
            } && dtb_size != 0))
            &&& (v.versioned matches HeaderV0Versioned::V2 { dtb_size, .. } ==> only_as(
                plan,
                PartKind::Dtb,
                Part { kind: PartKind::Dtb, position: v.dtb_pos() as u64, size: dtb_size },
            ))
            &&& !lists(plan, PartKind::BootSignature)
            &&& forall|i: int| 0 <= i < plan.len() && (#[trigger] plan[i]).kind == PartKind::Kernel ==> i == 0
            &&& forall|i: int| 0 <= i < plan.len() && (#[trigger] plan[i]).kind == PartKind::Ramdisk ==> i == 1
        }),
{
    let h = Header::V0(v);
    let head = seq![
        Part { kind: PartKind::Kernel, position: h.kernel_pos() as u64, size: h.spec_kernel_size() },
        Part { kind: PartKind::Ramdisk, position: h.ramdisk_pos() as u64, size: h.spec_ramdisk_size() },
    ];
    let sp = Part {
        kind: PartKind::SecondBootloader,
        position: v.second_pos() as u64,
        size: v.second_bootloader_size,
    };
    let rp = Part {
        kind: PartKind::RecoveryDtbo,
        position: v.recovery_dtbo_pos() as u64,
        size: recovery_dtbo_size_of(v.versioned),
    };
    let a = if_present(sp);
    let b = if_present(rp);
    let c = match v.versioned {
        HeaderV0Versioned::V2 { dtb_size, .. } => if_present(
            Part { kind: PartKind::Dtb, position: v.dtb_pos() as u64, size: dtb_size },
        ),
        _ => Seq::empty(),
    };
    let dp = match v.versioned {
        HeaderV0Versioned::V2 { dtb_size, .. } => Part {
            kind: PartKind::Dtb,
            position: v.dtb_pos() as u64,
            size: dtb_size,
        },
        _ => Part { kind: PartKind::Dtb, position: 0, size: 0 },
    };
    let plan = parts_to_extract(h);
    assert(plan == head + (a + b + c));
    let tail = a + b + c;
    lemma_if_present_kind(sp, PartKind::SecondBootloader);
    lemma_if_present_kind(rp, PartKind::SecondBootloader);
    lemma_if_present_kind(sp, PartKind::RecoveryDtbo);
    lemma_if_present_kind(rp, PartKind::RecoveryDtbo);
    lemma_if_present_kind(sp, PartKind::Dtb);
    lemma_if_present_kind(rp, PartKind::Dtb);
    lemma_if_present_kind(sp, PartKind::BootSignature);
    lemma_if_present_kind(rp, PartKind::BootSignature);
    lemma_if_present_kind(sp, PartKind::Kernel);
    lemma_if_present_kind(rp, PartKind::Kernel);
    lemma_if_present_kind(sp, PartKind::Ramdisk);
    lemma_if_present_kind(rp, PartKind::Ramdisk);
    lemma_if_present_kind(dp, PartKind::SecondBootloader);
    lemma_if_present_kind(dp, PartKind::RecoveryDtbo);
    lemma_if_present_kind(dp, PartKind::Dtb);
    lemma_if_present_kind(dp, PartKind::BootSignature);
    lemma_if_present_kind(dp, PartKind::Kernel);
    lemma_if_present_kind(dp, PartKind::Ramdisk);
    if !(v.versioned is V2) {
        assert(c =~= Seq::<Part>::empty());
        assert(!lists(c, PartKind::Dtb));
    } else {
        assert(c == if_present(dp));
    }
    lemma_tail_kinds(a, b, c, sp, rp, dp);
    lemma_concat_kind(head, tail, PartKind::SecondBootloader, sp);
    lemma_concat_kind(head, tail, PartKind::RecoveryDtbo, rp);
    lemma_concat_kind(head, tail, PartKind::Dtb, dp);
    lemma_concat_kind(head, tail, PartKind::BootSignature, dp);
    assert(!lists(head, PartKind::SecondBootloader));
    assert(!lists(head, PartKind::RecoveryDtbo));
    assert(!lists(head, PartKind::Dtb));
    assert(!lists(head, PartKind::BootSignature));
    assert(only_as(head, PartKind::SecondBootloader, sp));
    assert(only_as(head, PartKind::RecoveryDtbo, rp));
    assert(only_as(head, PartKind::Dtb, dp));
    assert forall|i: int| 0 <= i < plan.len() && (#[trigger] plan[i]).kind == PartKind::Kernel implies i
        == 0 by {
        if i >= 2 {
            assert(tail[i - 2] == plan[i]);
            assert(lists(tail, PartKind::Kernel));
        }
    }
    assert forall|i: int| 0 <= i < plan.len() && (#[trigger] plan[i]).kind == PartKind::Ramdisk implies i
        == 1 by {
        if i >= 2 {
            assert(tail[i - 2] == plan[i]);
            assert(lists(tail, PartKind::Ramdisk));
        }
    }
}

proof fn lemma_tail_kinds(a: Seq<Part>, b: Seq<Part>, c: Seq<Part>, sp: Part, rp: Part, dp: Part)
    requires
        a == if_present(sp),
        b == if_present(rp),
        c == if_present(dp) || c == Seq::<Part>::empty(),
        sp.kind == PartKind::SecondBootloader,
        rp.kind == PartKind::RecoveryDtbo,
        dp.kind == PartKind::Dtb,
    ensures
        lists(a + b + c, PartKind::SecondBootloader) <==> sp.size != 0,
        lists(a + b + c, PartKind::RecoveryDtbo) <==> rp.size != 0,
        lists(a + b + c, PartKind::Dtb) <==> lists(c, PartKind::Dtb),
        !lists(a + b + c, PartKind::BootSignature),
        !lists(a + b + c, PartKind::Kernel),
        !lists(a + b + c, PartKind::Ramdisk),
        only_as(a + b + c, PartKind::SecondBootloader, sp),
        only_as(a + b + c, PartKind::RecoveryDtbo, rp),
        only_as(a + b + c, PartKind::Dtb, dp),
{
    let e = Seq::<Part>::empty();
    assert(!lists(e, PartKind::SecondBootloader));
    assert(only_as(e, PartKind::Dtb, dp));
    let kinds = seq![
        PartKind::SecondBootloader,
        PartKind::RecoveryDtbo,
        PartKind::Dtb,
        PartKind::BootSignature,
        PartKind::Kernel,
        PartKind::Ramdisk,
    ];
    assert forall|k: int| 0 <= k < 6 implies {
        &&& (lists(a + b + c, #[trigger] kinds[k]) <==> (lists(a, kinds[k]) || lists(b, kinds[k])
            || lists(c, kinds[k])))
        &&& lists(a, kinds[k]) <==> (sp.size != 0 && sp.kind == kinds[k])
        &&& lists(b, kinds[k]) <==> (rp.size != 0 && rp.kind == kinds[k])
        &&& lists(c, kinds[k]) ==> dp.kind == kinds[k]
    } by {
        let kind = kinds[k];
        lemma_concat_kind(a, b, kind, sp);
        lemma_concat_kind(a + b, c, kind, sp);
        lemma_if_present_kind(sp, kind);
        lemma_if_present_kind(rp, kind);
        lemma_if_present_kind(dp, kind);
        if c == e {
            assert(!lists(c, kind));
        }
    }
    assert(kinds[0] == PartKind::SecondBootloader);
    assert(kinds[1] == PartKind::RecoveryDtbo);
    assert(kinds[2] == PartKind::Dtb);
    assert(kinds[3] == PartKind::BootSignature);
    assert(kinds[4] == PartKind::Kernel);
    assert(kinds[5] == PartKind::Ramdisk);
    lemma_if_present_kind(sp, PartKind::SecondBootloader);
    lemma_if_present_kind(rp, PartKind::SecondBootloader);
    lemma_if_present_kind(dp, PartKind::SecondBootloader);
    lemma_if_present_kind(sp, PartKind::RecoveryDtbo);
    lemma_if_present_kind(rp, PartKind::RecoveryDtbo);
    lemma_if_present_kind(dp, PartKind::RecoveryDtbo);
    lemma_if_present_kind(sp, PartKind::Dtb);
    lemma_if_present_kind(rp, PartKind::Dtb);
    lemma_if_present_kind(dp, PartKind::Dtb);
    if c == e {
        assert(only_as(c, PartKind::SecondBootloader, sp));
        assert(only_as(c, PartKind::RecoveryDtbo, rp));
    }
    lemma_concat_kind(a, b, PartKind::SecondBootloader, sp);
    lemma_concat_kind(a + b, c, PartKind::SecondBootloader, sp);
    lemma_concat_kind(a, b, PartKind::RecoveryDtbo, rp);
    lemma_concat_kind(a + b, c, PartKind::RecoveryDtbo, rp);
    lemma_concat_kind(a, b, PartKind::Dtb, dp);
    lemma_concat_kind(a + b, c, PartKind::Dtb, dp);
}

/// What is extracted from a version 3 or 4 image: the kernel first and the
/// ramdisk second, each at its offset and with its size; then the boot
/// signature exactly where the header is of version 4 and its size is not
/// zero, at its offset and with its size; nothing else.
pub proof fn lemma_extraction_plan_v3(v: HeaderV3)
    ensures
        ({
            let plan = parts_to_extract(Header::V3(v));
            &&& plan[0] == Part { kind: PartKind::Kernel, position: 4096, size: v.kernel_size }
            &&& plan[1] == Part {
                kind: PartKind::Ramdisk,
                position: v.ramdisk_pos() as u64,
                size: v.ramdisk_size,
            }
            &&& (lists(plan, PartKind::BootSignature) <==> (v.v4_signature_size matches Some(s)
                && s != 0))
            &&& (v.v4_signature_size matches Some(s) ==> only_as(
                plan,
                PartKind::BootSignature,
                Part { kind: PartKind::BootSignature, position: v.bootsig_pos() as u64, size: s },
            ))
            &&& plan.len() == 2 + (if lists(plan, PartKind::BootSignature) {
                1int
            } else {
                0int
            })
            &&& !lists(plan, PartKind::SecondBootloader)
            &&& !lists(plan, PartKind::RecoveryDtbo)
            &&& !lists(plan, PartKind::Dtb)
        }),
{
    let plan = parts_to_extract(Header::V3(v));
    match v.v4_signature_size {
        Some(s) => {
            let bp = Part { kind: PartKind::BootSignature, position: v.bootsig_pos() as u64, size: s };
            if s != 0 {
                assert(plan[2] == bp);
                assert(plan.len() == 3);
            } else {
                assert(plan.len() == 2);
            }
        },
        None => {
            assert(plan.len() == 2);
        },
    }
}

/// The place of a kind of part in the image: the kernel first, the boot
/// signature last.
pub open spec fn kind_rank(k: PartKind) -> int {
    match k {
        PartKind::Kernel => 0,
        PartKind::Ramdisk => 1,
        PartKind::SecondBootloader => 2,
        PartKind::RecoveryDtbo => 3,
        PartKind::Dtb => 4,
        PartKind::BootSignature => 5,
    }
}

/// The parts of `plan` come in the order in which their kinds lie in the
/// image, each kind at most once.
pub open spec fn in_image_order(plan: Seq<Part>) -> bool {
    forall|i: int, j: int|
        #![trigger plan[i], plan[j]]
        0 <= i < j < plan.len() ==> kind_rank(plan[i].kind) < kind_rank(plan[j].kind)
}

spec fn ranks_within(plan: Seq<Part>, lo: int, hi: int) -> bool {
    forall|i: int|
        #![trigger plan[i]]
        0 <= i < plan.len() ==> lo <= kind_rank(plan[i].kind) && kind_rank(plan[i].kind) < hi
}

proof fn lemma_order_concat(x: Seq<Part>, y: Seq<Part>, lo: int, mid: int, hi: int)
    requires
        in_image_order(x),
        in_image_order(y),
        ranks_within(x, lo, mid),
        ranks_within(y, mid, hi),
        lo <= mid <= hi,
    ensures
        in_image_order(x + y),
        ranks_within(x + y, lo, hi),
{
    let z = x + y;
    assert forall|i: int, j: int| 0 <= i < j < z.len() implies kind_rank(z[i].kind) < kind_rank(
        z[j].kind,
    ) by {
        if j < x.len() {
            assert(z[i] == x[i] && z[j] == x[j]);
        } else if i >= x.len() {
            assert(z[i] == y[i - x.len()] && z[j] == y[j - x.len()]);
        } else {
            assert(z[i] == x[i] && z[j] == y[j - x.len()]);
            assert(kind_rank(x[i].kind) < mid);
            assert(mid <= kind_rank(y[j - x.len()].kind));
        }
    }
    assert forall|i: int|
        #![trigger z[i]]
        0 <= i < z.len() implies (lo <= kind_rank(z[i].kind) && kind_rank(z[i].kind) < hi) by {
        if i < x.len() {
            assert(z[i] == x[i]);
            assert(lo <= kind_rank(x[i].kind) < mid);
        } else {
            assert(z[i] == y[i - x.len()]);
            assert(mid <= kind_rank(y[i - x.len()].kind) < hi);
        }
    }
}

proof fn lemma_present_order(part: Part)
    ensures
        in_image_order(if_present(part)),
        ranks_within(if_present(part), kind_rank(part.kind), kind_rank(part.kind) + 1),
{
}

/// The parts to extract come in the order in which they lie in the image:
/// kernel, ramdisk, second bootloader, recovery DTBO, DTB, boot signature,
/// each at most once.
pub proof fn lemma_extraction_order(h: Header)
    ensures
        in_image_order(parts_to_extract(h)),
{
    let head = seq![
        Part { kind: PartKind::Kernel, position: h.kernel_pos() as u64, size: h.spec_kernel_size() },
        Part { kind: PartKind::Ramdisk, position: h.ramdisk_pos() as u64, size: h.spec_ramdisk_size() },
    ];
    assert(ranks_within(head, 0, 2));
    match h {
        Header::V0(v) => {
            let sp = Part {
                kind: PartKind::SecondBootloader,
                position: v.second_pos() as u64,
                size: v.second_bootloader_size,
            };
            let rp = Part {
                kind: PartKind::RecoveryDtbo,
                position: v.recovery_dtbo_pos() as u64,
                size: recovery_dtbo_size_of(v.versioned),
            };
            let c = match v.versioned {
                HeaderV0Versioned::V2 { dtb_size, .. } => if_present(
                    Part { kind: PartKind::Dtb, position: v.dtb_pos() as u64, size: dtb_size },
                ),
                _ => Seq::empty(),
            };
            lemma_present_order(sp);
            lemma_present_order(rp);
            match v.versioned {
                HeaderV0Versioned::V2 { dtb_size, .. } => {
                    lemma_present_order(
                        Part { kind: PartKind::Dtb, position: v.dtb_pos() as u64, size: dtb_size },
                    );
                },
                _ => {
                    assert(ranks_within(c, 4, 5));
                },
            }
            lemma_order_concat(if_present(sp), if_present(rp), 2, 3, 4);
            lemma_order_concat(if_present(sp) + if_present(rp), c, 2, 4, 5);
            lemma_order_concat(head, if_present(sp) + if_present(rp) + c, 0, 2, 5);
            assert(parts_to_extract(h) == head + (if_present(sp) + if_present(rp) + c));
        },
        Header::V3(v) => {
            let e = v3_extra_parts(v);
            match v.v4_signature_size {
                Some(size) => {
                    lemma_present_order(
                        Part { kind: PartKind::BootSignature, position: v.bootsig_pos() as u64, size },
                    );
                },
                None => {
                    assert(ranks_within(e, 5, 6));
                },
            }
            lemma_order_concat(head, e, 0, 2, 6);
        },
    }
}

/// Whether `f` occurs in `s` at some offset.
pub open spec fn has_infix(s: Seq<u8>, f: Seq<u8>) -> bool {
    exists|i: int| 0 <= i <= s.len() - f.len() && #[trigger] s.subrange(i, i + f.len()) == f
}

/// The bytes of one argument and its value as they stand in the text: a
/// separator, the argument's name, a separator, the value.
pub open spec fn arg_bytes(sep: u8, name: &str, value: Seq<u8>) -> Seq<u8> {
    seq![sep] + name.spec_bytes() + seq![sep] + value
}

proof fn lemma_infix(x: Seq<u8>, f: Seq<u8>, y: Seq<u8>)
    ensures
        has_infix(x + f + y, f),
{
    assert((x + f + y).subrange(x.len() as int, (x.len() + f.len()) as int) =~= f);
}

/// The `mkbootimg` arguments of an image with header `h` name the kernel and
/// ramdisk paths; for a version 0, 1 or 2 header, the second bootloader path
/// where its size is not zero, the recovery DTBO path where the header is of
/// version 1 or 2 and its size is not zero, the DTB path and the DTB offset
/// where it is of version 2 (the path only where the DTB size is not zero);
/// for a version 3 or 4 header, the command line. Each argument is separated
/// from its name and from the argument before by the separator: a null byte
/// in null mode, a space otherwise. The text ends with a null byte or a
/// newline.
pub proof fn lemma_mkbootimg_arguments(h: Header, paths: OutPaths, null: bool)
    ensures
        ({
            let t = mkbootimg_text(h, paths, null);
            let sep = separator(null);
            &&& has_infix(t, arg_bytes(sep, "--kernel", paths.kernel@))
            &&& has_infix(t, arg_bytes(sep, "--ramdisk", paths.ramdisk@))
            &&& t.last() == (if null {
                0u8
            } else {
                10u8
            })
            &&& match h {
                Header::V0(v) => {
                    &&& (v.second_bootloader_size != 0 ==> has_infix(
                        t,
                        arg_bytes(sep, "--second", paths.second@),
                    ))
                    &&& match recovery_dtbo_field(v.versioned) {
                        Some(s) => s != 0 ==> has_infix(
                            t,
                            arg_bytes(sep, "--recovery_dtbo", paths.recovery_dtbo@),
                        ),
                        None => true,
                    }
                    &&& match v.versioned {
                        HeaderV0Versioned::V2 { dtb_size, dtb_addr, .. } => {
                            &&& (dtb_size != 0 ==> has_infix(t, arg_bytes(sep, "--dtb", paths.dtb@)))
                            &&& has_infix(t, arg_bytes(sep, "--dtb_offset", hex64(dtb_addr)))
                        },
                        _ => true,
                    }
                },
                Header::V3(v) => has_infix(
                    t,
                    arg_bytes(sep, "--cmdline", string_arg(v.cmdline@, null)),
                ),
            }
        }),
{
    lemma_mkbootimg_head_args(h, paths, null);
    match h {
        Header::V0(v) => {
            lemma_mkbootimg_v0_parts_args(v, paths, null);
            lemma_mkbootimg_v0_dtb_offset(v, paths, null);
        },
        Header::V3(v) => lemma_mkbootimg_v3_args(v, paths, null),
    }
}

/// The text split at the end of the arguments that every header gives.
proof fn lemma_mkbootimg_split(h: Header, paths: OutPaths, null: bool)
    ensures
        mkbootimg_text(h, paths, null) == mkbootimg_head(h, paths, null) + match h {
            Header::V0(v) => mkbootimg_parts_v0(v, paths, separator(null)) + mkbootimg_layout_v0(
                v,
                null,
            ),
            Header::V3(v) => flag(separator(null), "--cmdline", string_arg(v.cmdline@, null)),
        } + (if null {
            seq![0u8]
        } else {
            seq![10u8]
        }),
{
}

#[verifier::rlimit(40)]
proof fn lemma_mkbootimg_head_args(h: Header, paths: OutPaths, null: bool)
    ensures
        ({
            let t = mkbootimg_text(h, paths, null);
            let sep = separator(null);
            &&& has_infix(t, arg_bytes(sep, "--kernel", paths.kernel@))
            &&& has_infix(t, arg_bytes(sep, "--ramdisk", paths.ramdisk@))
            &&& t.last() == (if null {
                0u8
            } else {
                10u8
            })
        }),
{
    let sep = separator(null);
    let t = mkbootimg_text(h, paths, null);
    let head = mkbootimg_head(h, paths, null);
    let end: Seq<u8> = if null {
        seq![0u8]
    } else {
        seq![10u8]
    };
    let body = t.subrange(head.len() as int, t.len() - 1);
    lemma_mkbootimg_split(h, paths, null);
    assert(t =~= head + body + end);
    let pre_k = "--header_version".spec_bytes() + seq![sep] + decimal(version_of(h) as nat) + flag(
        sep,
        "--os_version",
        version_text(unpack_version(h.spec_osversionpatch().0)),
    ) + flag(sep, "--os_patch_level", patch_text(unpack_patch(h.spec_osversionpatch().0)));
    let fk = arg_bytes(sep, "--kernel", paths.kernel@);
    let fr = arg_bytes(sep, "--ramdisk", paths.ramdisk@);
    assert(head =~= pre_k + fk + fr);
    assert(t =~= pre_k + fk + (fr + body + end));
    lemma_infix(pre_k, fk, fr + body + end);
    assert(t =~= (pre_k + fk) + fr + (body + end));
    lemma_infix(pre_k + fk, fr, body + end);
}

#[verifier::rlimit(40)]
proof fn lemma_mkbootimg_v0_parts_args(v: HeaderV0, paths: OutPaths, null: bool)
    ensures
        ({
            let t = mkbootimg_text(Header::V0(v), paths, null);
            let sep = separator(null);
            &&& (v.second_bootloader_size != 0 ==> has_infix(
                t,
                arg_bytes(sep, "--second", paths.second@),
            ))
            &&& match recovery_dtbo_field(v.versioned) {
                Some(s) => s != 0 ==> has_infix(
                    t,
                    arg_bytes(sep, "--recovery_dtbo", paths.recovery_dtbo@),
                ),
                None => true,
            }
            &&& match v.versioned {
                HeaderV0Versioned::V2 { dtb_size, .. } => dtb_size != 0 ==> has_infix(
                    t,
                    arg_bytes(sep, "--dtb", paths.dtb@),
                ),
                _ => true,
            }
        }),
{
    let h = Header::V0(v);
    let sep = separator(null);
    let t = mkbootimg_text(h, paths, null);
    let head = mkbootimg_head(h, paths, null);
    let layout = mkbootimg_layout_v0(v, null);
    let end: Seq<u8> = if null {
        seq![0u8]
    } else {
        seq![10u8]
    };
    lemma_mkbootimg_split(h, paths, null);
    let fs: Seq<u8> = if v.second_bootloader_size != 0 {
        flag(sep, "--second", paths.second@)
    } else {
        Seq::empty()
    };
    let fo: Seq<u8> = if recovery_dtbo_size_of(v.versioned) != 0 {
        flag(sep, "--recovery_dtbo", paths.recovery_dtbo@)
    } else {
        Seq::empty()
    };
    let fd: Seq<u8> = match v.versioned {
        HeaderV0Versioned::V2 { dtb_size, .. } => if dtb_size != 0 {
            flag(sep, "--dtb", paths.dtb@)
        } else {
            Seq::empty()
        },
        _ => Seq::empty(),
    };
    assert(mkbootimg_parts_v0(v, paths, sep) == fs + fo + fd);
    assert(t == head + (fs + fo + fd) + layout + end);
    assert(t =~= head + fs + (fo + fd + layout + end));
    lemma_infix(head, fs, fo + fd + layout + end);
    assert(t =~= (head + fs) + fo + (fd + layout + end));
    lemma_infix(head + fs, fo, fd + layout + end);
    assert(t =~= (head + fs + fo) + fd + (layout + end));
    lemma_infix(head + fs + fo, fd, layout + end);
}

#[verifier::rlimit(40)]
proof fn lemma_mkbootimg_v0_dtb_offset(v: HeaderV0, paths: OutPaths, null: bool)
    ensures
        v.versioned matches HeaderV0Versioned::V2 { dtb_addr, .. } ==> has_infix(
            mkbootimg_text(Header::V0(v), paths, null),
            arg_bytes(separator(null), "--dtb_offset", hex64(dtb_addr)),
        ),
{
    if let HeaderV0Versioned::V2 { dtb_addr, .. } = v.versioned {
        let h = Header::V0(v);
        let sep = separator(null);
        let t = mkbootimg_text(h, paths, null);
        let end: Seq<u8> = if null {
            seq![0u8]
        } else {
            seq![10u8]
        };
        lemma_mkbootimg_split(h, paths, null);
        let pre = mkbootimg_head(h, paths, null) + mkbootimg_parts_v0(v, paths, sep);
        let offsets = flag(sep, "--pagesize", hex32(v.page_size)) + flag(sep, "--base", hex32(0))
            + flag(sep, "--kernel_offset", hex32(v.kernel_addr)) + flag(
            sep,
            "--ramdisk_offset",
            hex32(v.ramdisk_addr),
        ) + flag(sep, "--second_offset", hex32(v.second_bootloader_addr)) + flag(
            sep,
            "--tags_offset",
            hex32(v.tags_addr),
        );
        let fdo = flag(sep, "--dtb_offset", hex64(dtb_addr));
        let rest = flag(sep, "--board", string_arg(v.board_name@, null)) + flag(
            sep,
            "--cmdline",
            quoted_arg(full_cmdline_v0(v), null),
        );
        assert(mkbootimg_layout_v0(v, null) == offsets + fdo + rest);
        assert(t =~= (pre + offsets) + fdo + (rest + end));
        lemma_infix(pre + offsets, fdo, rest + end);
    }
}

proof fn lemma_mkbootimg_v3_args(v: HeaderV3, paths: OutPaths, null: bool)
    ensures
        has_infix(
            mkbootimg_text(Header::V3(v), paths, null),
            arg_bytes(separator(null), "--cmdline", string_arg(v.cmdline@, null)),
        ),
{
    let h = Header::V3(v);
    let end: Seq<u8> = if null {
        seq![0u8]
    } else {
        seq![10u8]
    };
    lemma_mkbootimg_split(h, paths, null);
    let fc = flag(separator(null), "--cmdline", string_arg(v.cmdline@, null));
    lemma_infix(mkbootimg_head(h, paths, null), fc, end);
}

/// A line of the information listing: the label, the value, a newline.
pub open spec fn labelled(label: &str, value: Seq<u8>) -> Seq<u8> {
    label.spec_bytes() + value + "\n".spec_bytes()
}

/// What stands in a part of `a` stands in `a`.
proof fn lemma_infix_trans(a: Seq<u8>, b: Seq<u8>, f: Seq<u8>)
    requires
        has_infix(a, b),
        has_infix(b, f),
    ensures
        has_infix(a, f),
{
    let i = choose|i: int| 0 <= i <= a.len() - b.len() && #[trigger] a.subrange(i, i + b.len()) == b;
    let j = choose|j: int| 0 <= j <= b.len() - f.len() && #[trigger] b.subrange(j, j + f.len()) == f;
    assert(a.subrange(i + j, i + j + f.len()) =~= b.subrange(j, j + f.len()));
}

/// The information listing of a version 0, 1 or 2 header starts with the
/// boot magic and holds a line for each field, with its value in decimal (the
/// sizes, the header version), as `0x` and eight or sixteen hexadecimal
/// digits (the addresses), as numerals (OS version and patch level) or as the
/// bytes before the first null (the product name, the command line and the
/// additional command line); the extended listing also the stored and the
/// computed digest in hexadecimal; version 1 and 2 headers also their recovery
/// DTBO size and offset and their header size, version 2 headers their DTB
/// size and address.
pub proof fn lemma_info_lines_v0(v: HeaderV0, computed: Option<Seq<u8>>)
    ensures
        ({
            let t = info_text(Header::V0(v), computed);
            let magic = "boot magic: ANDROID!\n".spec_bytes();
            &&& t.len() >= magic.len() && t.subrange(0, magic.len() as int) == magic
            &&& has_infix(t, labelled("kernel_size: ", decimal(v.kernel_size as nat)))
            &&& has_infix(t, labelled("kernel load address: ", hex32(v.kernel_addr)))
            &&& has_infix(t, labelled("ramdisk size: ", decimal(v.ramdisk_size as nat)))
            &&& has_infix(t, labelled("ramdisk load address: ", hex32(v.ramdisk_addr)))
            &&& has_infix(
                t,
                labelled("second bootloader size: ", decimal(v.second_bootloader_size as nat)),
            )
            &&& has_infix(
                t,
                labelled("second bootloader load address: ", hex32(v.second_bootloader_addr)),
            )
            &&& has_infix(t, labelled("kernel tags load address: ", hex32(v.tags_addr)))
            &&& has_infix(t, labelled("page size: ", decimal(v.page_size as nat)))
            &&& has_infix(
                t,
                labelled("os version: ", version_text(unpack_version(v.osversionpatch.0))),
            )
            &&& has_infix(
                t,
                labelled("os patch level: ", patch_text(unpack_patch(v.osversionpatch.0))),
            )
            &&& has_infix(
                t,
                labelled("boot image header version: ", decimal(version_of(Header::V0(v)) as nat)),
            )
            &&& has_infix(t, labelled("product name: ", until_null(v.board_name@)))
            &&& has_infix(
                t,
                labelled("command line args: ", until_null(v.cmdline@.subrange(0, 512))),
            )
            &&& has_infix(
                t,
                labelled(
                    "additional command line args: ",
                    until_null(v.cmdline@.subrange(512, 1536)),
                ),
            )
            &&& match computed {
                Some(dd) => {
                    &&& has_infix(
                        t,
                        labelled("hash digest in header: ", hex_bytes(v.hash_digest@)),
                    )
                    &&& has_infix(t, labelled("computed hash digest: ", hex_bytes(dd)))
                },
                None => true,
            }
            &&& match v.versioned {
                HeaderV0Versioned::V0 => true,
                HeaderV0Versioned::V1 { recovery_dtbo_size, recovery_dtbo_addr } => {
                    &&& has_infix(
                        t,
                        labelled("recovery dtbo size: ", decimal(recovery_dtbo_size as nat)),
                    )
                    &&& has_infix(t, labelled("recovery dtbo offset: ", hex64(recovery_dtbo_addr)))
                    &&& has_infix(t, labelled("boot header size: ", decimal(1648)))
                },
                HeaderV0Versioned::V2 {
                    recovery_dtbo_size,
                    recovery_dtbo_addr,
                    dtb_size,
                    dtb_addr,
                } => {
                    &&& has_infix(
                        t,
                        labelled("recovery dtbo size: ", decimal(recovery_dtbo_size as nat)),
                    )
                    &&& has_infix(t, labelled("recovery dtbo offset: ", hex64(recovery_dtbo_addr)))
                    &&& has_infix(t, labelled("boot header size: ", decimal(1660)))
                    &&& has_infix(t, labelled("dtb size: ", decimal(dtb_size as nat)))
                    &&& has_infix(t, labelled("dtb address: ", hex64(dtb_addr)))
                },
            }
        }),
{
    let h = Header::V0(v);
    let t = info_text(h, computed);
    let lay = info_layout_v0(v);
    let ver = info_versions(h);
    let strs = info_strings_v0(v);
    let x = info_versioned(v.versioned);
    lemma_info_blocks_v0(v, computed);
    lemma_layout_lines_v0(v);
    lemma_version_lines(h);
    lemma_string_lines_v0(v);
    lemma_infix_trans(t, lay, line("kernel_size: ", decimal(v.kernel_size as nat)));
    lemma_infix_trans(t, lay, line("kernel load address: ", hex32(v.kernel_addr)));
    lemma_infix_trans(t, lay, line("ramdisk size: ", decimal(v.ramdisk_size as nat)));
    lemma_infix_trans(t, lay, line("ramdisk load address: ", hex32(v.ramdisk_addr)));
    lemma_infix_trans(t, lay, line("second bootloader size: ", decimal(v.second_bootloader_size as nat)));
    lemma_infix_trans(t, lay, line("second bootloader load address: ", hex32(v.second_bootloader_addr)));
    lemma_infix_trans(t, lay, line("kernel tags load address: ", hex32(v.tags_addr)));
    lemma_infix_trans(t, lay, line("page size: ", decimal(v.page_size as nat)));
    lemma_infix_trans(t, ver, line("os version: ", version_text(unpack_version(h.spec_osversionpatch().0))));
    lemma_infix_trans(t, ver, line("os patch level: ", patch_text(unpack_patch(h.spec_osversionpatch().0))));
    lemma_infix_trans(t, ver, line("boot image header version: ", decimal(version_of(h) as nat)));
    lemma_infix_trans(t, strs, line("product name: ", until_null(v.board_name@)));
    lemma_infix_trans(t, strs, line("command line args: ", until_null(v.cmdline@.subrange(0, 512))));
    lemma_infix_trans(t, strs, line("additional command line args: ", until_null(v.cmdline@.subrange(512, 1536))));
    lemma_infix_trans(t, strs, info_versioned(v.versioned));
    if let Some(dd) = computed {
        lemma_digest_lines(v, dd);
        lemma_infix_trans(t, info_digests(v, computed), line("hash digest in header: ", hex_bytes(v.hash_digest@)));
        lemma_infix_trans(t, info_digests(v, computed), line("computed hash digest: ", hex_bytes(dd)));
    }
    match v.versioned {
        HeaderV0Versioned::V0 => {},
        HeaderV0Versioned::V1 { recovery_dtbo_size: s, recovery_dtbo_addr: a } => {
            lemma_v1_lines(s, a);
            lemma_infix_trans(t, x, line("recovery dtbo size: ", decimal(s as nat)));
            lemma_infix_trans(t, x, line("recovery dtbo offset: ", hex64(a)));
            lemma_infix_trans(t, x, line("boot header size: ", decimal(1648)));
        },
        HeaderV0Versioned::V2 { recovery_dtbo_size: s, recovery_dtbo_addr: a, dtb_size: ds, dtb_addr: da } => {
            lemma_v2_lines(s, a, ds, da);
            lemma_infix_trans(t, x, line("recovery dtbo size: ", decimal(s as nat)));
            lemma_infix_trans(t, x, line("recovery dtbo offset: ", hex64(a)));
            lemma_infix_trans(t, x, line("boot header size: ", decimal(1660)));
            lemma_infix_trans(t, x, line("dtb size: ", decimal(ds as nat)));
            lemma_infix_trans(t, x, line("dtb address: ", hex64(da)));
        },
    }
}

/// The blocks of the listing of a version 0, 1 or 2 header stand in it, after the boot magic.
proof fn lemma_info_blocks_v0(v: HeaderV0, computed: Option<Seq<u8>>)
    ensures
        ({
            let t = info_text(Header::V0(v), computed);
            let magic = "boot magic: ANDROID!\n".spec_bytes();
            &&& t.len() >= magic.len() && t.subrange(0, magic.len() as int) == magic
            &&& has_infix(t, info_layout_v0(v))
            &&& has_infix(t, info_digests(v, computed))
            &&& has_infix(t, info_versions(Header::V0(v)))
            &&& has_infix(t, info_strings_v0(v))
        }),
{
    let t = info_text(Header::V0(v), computed);
    let magic = "boot magic: ANDROID!\n".spec_bytes();
    let lay = info_layout_v0(v);
    let dig = info_digests(v, computed);
    let ver = info_versions(Header::V0(v));
    let strs = info_strings_v0(v);
    assert(t == magic + (lay + dig) + ver + strs);
    assert(t.subrange(0, magic.len() as int) =~= magic);
    assert(t =~= magic + lay + (dig + ver + strs));
    lemma_infix(magic, lay, dig + ver + strs);
    assert(t =~= magic + lay + dig + (ver + strs));
    lemma_infix(magic + lay, dig, ver + strs);
    assert(t =~= (magic + (lay + dig)) + ver + strs);
    lemma_infix(magic + (lay + dig), ver, strs);
    assert(t =~= (magic + (lay + dig) + ver) + strs + Seq::<u8>::empty());
    lemma_infix(magic + (lay + dig) + ver, strs, Seq::<u8>::empty());
}

/// Each line of the layout block stands in it.
proof fn lemma_layout_lines_v0(v: HeaderV0)
    ensures
        has_infix(info_layout_v0(v), line("kernel_size: ", decimal(v.kernel_size as nat))),
        has_infix(info_layout_v0(v), line("kernel load address: ", hex32(v.kernel_addr))),
        has_infix(info_layout_v0(v), line("ramdisk size: ", decimal(v.ramdisk_size as nat))),
        has_infix(info_layout_v0(v), line("ramdisk load address: ", hex32(v.ramdisk_addr))),
        has_infix(info_layout_v0(v), line("second bootloader size: ", decimal(v.second_bootloader_size as nat))),
        has_infix(info_layout_v0(v), line("second bootloader load address: ", hex32(v.second_bootloader_addr))),
        has_infix(info_layout_v0(v), line("kernel tags load address: ", hex32(v.tags_addr))),
        has_infix(info_layout_v0(v), line("page size: ", decimal(v.page_size as nat))),
{
    let whole = info_layout_v0(v);
    let l1 = line("kernel_size: ", decimal(v.kernel_size as nat));
    let l2 = line("kernel load address: ", hex32(v.kernel_addr));
    let l3 = line("ramdisk size: ", decimal(v.ramdisk_size as nat));
    let l4 = line("ramdisk load address: ", hex32(v.ramdisk_addr));
    let l5 = line("second bootloader size: ", decimal(v.second_bootloader_size as nat));
    let l6 = line("second bootloader load address: ", hex32(v.second_bootloader_addr));
    let l7 = line("kernel tags load address: ", hex32(v.tags_addr));
    let l8 = line("page size: ", decimal(v.page_size as nat));
    assert(whole =~= (Seq::<u8>::empty()) + l1 + (l2 + l3 + l4 + l5 + l6 + l7 + l8));
    lemma_infix(Seq::<u8>::empty(), l1, l2 + l3 + l4 + l5 + l6 + l7 + l8);
    assert(whole =~= (l1) + l2 + (l3 + l4 + l5 + l6 + l7 + l8));
    lemma_infix(l1, l2, l3 + l4 + l5 + l6 + l7 + l8);
    assert(whole =~= (l1 + l2) + l3 + (l4 + l5 + l6 + l7 + l8));
    lemma_infix(l1 + l2, l3, l4 + l5 + l6 + l7 + l8);
    assert(whole =~= (l1 + l2 + l3) + l4 + (l5 + l6 + l7 + l8));
    lemma_infix(l1 + l2 + l3, l4, l5 + l6 + l7 + l8);
    assert(whole =~= (l1 + l2 + l3 + l4) + l5 + (l6 + l7 + l8));
    lemma_infix(l1 + l2 + l3 + l4, l5, l6 + l7 + l8);
    assert(whole =~= (l1 + l2 + l3 + l4 + l5) + l6 + (l7 + l8));
    lemma_infix(l1 + l2 + l3 + l4 + l5, l6, l7 + l8);
    assert(whole =~= (l1 + l2 + l3 + l4 + l5 + l6) + l7 + (l8));
    lemma_infix(l1 + l2 + l3 + l4 + l5 + l6, l7, l8);
    assert(whole =~= (l1 + l2 + l3 + l4 + l5 + l6 + l7) + l8 + (Seq::<u8>::empty()));
    lemma_infix(l1 + l2 + l3 + l4 + l5 + l6 + l7, l8, Seq::<u8>::empty());
}

/// Each line of the versions block stands in it.
proof fn lemma_version_lines(h: Header)
    ensures
        has_infix(info_versions(h), line("os version: ", version_text(unpack_version(h.spec_osversionpatch().0)))),
        has_infix(info_versions(h), line("os patch level: ", patch_text(unpack_patch(h.spec_osversionpatch().0)))),
        has_infix(info_versions(h), line("boot image header version: ", decimal(version_of(h) as nat))),
{
    let whole = info_versions(h);
    let v1 = line("os version: ", version_text(unpack_version(h.spec_osversionpatch().0)));
    let v2 = line("os patch level: ", patch_text(unpack_patch(h.spec_osversionpatch().0)));
    let v3 = line("boot image header version: ", decimal(version_of(h) as nat));
    assert(whole =~= (Seq::<u8>::empty()) + v1 + (v2 + v3));
    lemma_infix(Seq::<u8>::empty(), v1, v2 + v3);
    assert(whole =~= (v1) + v2 + (v3));
    lemma_infix(v1, v2, v3);
    assert(whole =~= (v1 + v2) + v3 + (Seq::<u8>::empty()));
    lemma_infix(v1 + v2, v3, Seq::<u8>::empty());
}

/// Each line of the strings block stands in it.
proof fn lemma_string_lines_v0(v: HeaderV0)
    ensures
        has_infix(info_strings_v0(v), line("product name: ", until_null(v.board_name@))),
        has_infix(info_strings_v0(v), line("command line args: ", until_null(v.cmdline@.subrange(0, 512)))),
        has_infix(info_strings_v0(v), line("additional command line args: ", until_null(v.cmdline@.subrange(512, 1536)))),
        has_infix(info_strings_v0(v), info_versioned(v.versioned)),
{
    let whole = info_strings_v0(v);
    let s1 = line("product name: ", until_null(v.board_name@));
    let s2 = line("command line args: ", until_null(v.cmdline@.subrange(0, 512)));
    let s3 = line("additional command line args: ", until_null(v.cmdline@.subrange(512, 1536)));
    let x = info_versioned(v.versioned);
    assert(whole =~= (Seq::<u8>::empty()) + s1 + (s2 + s3 + x));
    lemma_infix(Seq::<u8>::empty(), s1, s2 + s3 + x);
    assert(whole =~= (s1) + s2 + (s3 + x));
    lemma_infix(s1, s2, s3 + x);
    assert(whole =~= (s1 + s2) + s3 + (x));
    lemma_infix(s1 + s2, s3, x);
    assert(whole =~= (s1 + s2 + s3) + x + (Seq::<u8>::empty()));
    lemma_infix(s1 + s2 + s3, x, Seq::<u8>::empty());
}

/// Each line of the version 1 fields stands in their block.
proof fn lemma_v1_lines(s: u32, a: u64)
    ensures
        has_infix(info_versioned(HeaderV0Versioned::V1 { recovery_dtbo_size: s, recovery_dtbo_addr: a }), line("recovery dtbo size: ", decimal(s as nat))),
        has_infix(info_versioned(HeaderV0Versioned::V1 { recovery_dtbo_size: s, recovery_dtbo_addr: a }), line("recovery dtbo offset: ", hex64(a))),
        has_infix(info_versioned(HeaderV0Versioned::V1 { recovery_dtbo_size: s, recovery_dtbo_addr: a }), line("boot header size: ", decimal(1648))),
{
    let whole = info_versioned(HeaderV0Versioned::V1 { recovery_dtbo_size: s, recovery_dtbo_addr: a });
    let r1 = line("recovery dtbo size: ", decimal(s as nat));
    let r2 = line("recovery dtbo offset: ", hex64(a));
    let r3 = line("boot header size: ", decimal(1648));
    assert(whole =~= (Seq::<u8>::empty()) + r1 + (r2 + r3));
    lemma_infix(Seq::<u8>::empty(), r1, r2 + r3);
    assert(whole =~= (r1) + r2 + (r3));
    lemma_infix(r1, r2, r3);
    assert(whole =~= (r1 + r2) + r3 + (Seq::<u8>::empty()));
    lemma_infix(r1 + r2, r3, Seq::<u8>::empty());
}

/// Each line of the version 2 fields stands in their block.
proof fn lemma_v2_lines(s: u32, a: u64, ds: u32, da: u64)
    ensures
        has_infix(info_versioned(HeaderV0Versioned::V2 { recovery_dtbo_size: s, recovery_dtbo_addr: a, dtb_size: ds, dtb_addr: da }), line("recovery dtbo size: ", decimal(s as nat))),
        has_infix(info_versioned(HeaderV0Versioned::V2 { recovery_dtbo_size: s, recovery_dtbo_addr: a, dtb_size: ds, dtb_addr: da }), line("recovery dtbo offset: ", hex64(a))),
        has_infix(info_versioned(HeaderV0Versioned::V2 { recovery_dtbo_size: s, recovery_dtbo_addr: a, dtb_size: ds, dtb_addr: da }), line("boot header size: ", decimal(1660))),
        has_infix(info_versioned(HeaderV0Versioned::V2 { recovery_dtbo_size: s, recovery_dtbo_addr: a, dtb_size: ds, dtb_addr: da }), line("dtb size: ", decimal(ds as nat))),
        has_infix(info_versioned(HeaderV0Versioned::V2 { recovery_dtbo_size: s, recovery_dtbo_addr: a, dtb_size: ds, dtb_addr: da }), line("dtb address: ", hex64(da))),
{
    let whole = info_versioned(HeaderV0Versioned::V2 { recovery_dtbo_size: s, recovery_dtbo_addr: a, dtb_size: ds, dtb_addr: da });
    let r1 = line("recovery dtbo size: ", decimal(s as nat));
    let r2 = line("recovery dtbo offset: ", hex64(a));
    let r3 = line("boot header size: ", decimal(1660));
    let r4 = line("dtb size: ", decimal(ds as nat));
    let r5 = line("dtb address: ", hex64(da));
    assert(whole =~= (Seq::<u8>::empty()) + r1 + (r2 + r3 + r4 + r5));
    lemma_infix(Seq::<u8>::empty(), r1, r2 + r3 + r4 + r5);
    assert(whole =~= (r1) + r2 + (r3 + r4 + r5));
    lemma_infix(r1, r2, r3 + r4 + r5);
    assert(whole =~= (r1 + r2) + r3 + (r4 + r5));
    lemma_infix(r1 + r2, r3, r4 + r5);
    assert(whole =~= (r1 + r2 + r3) + r4 + (r5));
    lemma_infix(r1 + r2 + r3, r4, r5);
    assert(whole =~= (r1 + r2 + r3 + r4) + r5 + (Seq::<u8>::empty()));
    lemma_infix(r1 + r2 + r3 + r4, r5, Seq::<u8>::empty());
}

/// Each line of the digests block stands in it.
proof fn lemma_digest_lines(v: HeaderV0, dd: Seq<u8>)
    ensures
        has_infix(info_digests(v, Some(dd)), line("hash digest in header: ", hex_bytes(v.hash_digest@))),
        has_infix(info_digests(v, Some(dd)), line("computed hash digest: ", hex_bytes(dd))),
{
    let whole = info_digests(v, Some(dd));
    let d1 = line("hash digest in header: ", hex_bytes(v.hash_digest@));
    let d2 = line("computed hash digest: ", hex_bytes(dd));
    assert(whole =~= (Seq::<u8>::empty()) + d1 + (d2));
    lemma_infix(Seq::<u8>::empty(), d1, d2);
    assert(whole =~= (d1) + d2 + (Seq::<u8>::empty()));
    lemma_infix(d1, d2, Seq::<u8>::empty());
}

/// The information listing of a version 3 or 4 header starts with the boot
/// magic and holds a line for the kernel size, the ramdisk size, the OS
/// version and patch level, the header version and the command line (the
/// bytes before its first null); for version 4, the boot signature size.
pub proof fn lemma_info_lines_v3(v: HeaderV3, computed: Option<Seq<u8>>)
    ensures
        ({
            let t = info_text(Header::V3(v), computed);
            let magic = "boot magic: ANDROID!\n".spec_bytes();
            &&& t.len() >= magic.len() && t.subrange(0, magic.len() as int) == magic
            &&& has_infix(t, labelled("kernel_size: ", decimal(v.kernel_size as nat)))
            &&& has_infix(t, labelled("ramdisk size: ", decimal(v.ramdisk_size as nat)))
            &&& has_infix(
                t,
                labelled("os version: ", version_text(unpack_version(v.osversionpatch.0))),
            )
            &&& has_infix(
                t,
                labelled("os patch level: ", patch_text(unpack_patch(v.osversionpatch.0))),
            )
            &&& has_infix(
                t,
                labelled("boot image header version: ", decimal(version_of(Header::V3(v)) as nat)),
            )
            &&& has_infix(t, labelled("command line args: ", until_null(v.cmdline@)))
            &&& match v.v4_signature_size {
                Some(size) => has_infix(t, labelled("boot.img signature size: ", decimal(size as nat))),
                None => true,
            }
        }),
{
    let h = Header::V3(v);
    let t = info_text(h, computed);
    let magic = "boot magic: ANDROID!\n".spec_bytes();
    let k = line("kernel_size: ", decimal(v.kernel_size as nat));
    let r = line("ramdisk size: ", decimal(v.ramdisk_size as nat));
    let ver = info_versions(h);
    let c = line("command line args: ", until_null(v.cmdline@));
    let sig: Seq<u8> = match v.v4_signature_size {
        Some(size) => line("boot.img signature size: ", decimal(size as nat)),
        None => Seq::empty(),
    };
    assert(t == magic + (k + r) + ver + (c + sig));
    assert(t.subrange(0, magic.len() as int) =~= magic);
    assert(t =~= magic + k + (r + ver + c + sig));
    lemma_infix(magic, k, r + ver + c + sig);
    assert(t =~= (magic + k) + r + (ver + c + sig));
    lemma_infix(magic + k, r, ver + c + sig);
    assert(t =~= (magic + k + r) + ver + (c + sig));
    lemma_infix(magic + k + r, ver, c + sig);
    assert(t =~= (magic + k + r + ver) + c + sig);
    lemma_infix(magic + k + r + ver, c, sig);
    assert(t =~= (magic + k + r + ver + c) + sig + Seq::<u8>::empty());
    lemma_infix(magic + k + r + ver + c, sig, Seq::<u8>::empty());
    lemma_version_lines(h);
    lemma_infix_trans(t, ver, line("os version: ", version_text(unpack_version(v.osversionpatch.0))));
    lemma_infix_trans(t, ver, line("os patch level: ", patch_text(unpack_patch(v.osversionpatch.0))));
    lemma_infix_trans(t, ver, line("boot image header version: ", decimal(version_of(h) as nat)));
}

/// The head of the `mkbootimg` arguments holds the header version, the OS
/// version and the patch level.
proof fn lemma_mkbootimg_head_values(h: Header, paths: OutPaths, null: bool)
    ensures
        ({
            let sep = separator(null);
            let whole = mkbootimg_head(h, paths, null);
            &&& has_infix(whole, flag(sep, "--os_version", version_text(unpack_version(h.spec_osversionpatch().0))))
            &&& has_infix(whole, flag(sep, "--os_patch_level", patch_text(unpack_patch(h.spec_osversionpatch().0))))
            &&& whole.subrange(0, ("--header_version".spec_bytes() + seq![sep] + decimal(version_of(h) as nat)).len() as int)
                == "--header_version".spec_bytes() + seq![sep] + decimal(version_of(h) as nat)
        }),
{
    let sep = separator(null);
    let whole = mkbootimg_head(h, paths, null);
    let hv = "--header_version".spec_bytes() + seq![sep] + decimal(version_of(h) as nat);
    let fo = flag(sep, "--os_version", version_text(unpack_version(h.spec_osversionpatch().0)));
    let fp = flag(sep, "--os_patch_level", patch_text(unpack_patch(h.spec_osversionpatch().0)));
    let fk = flag(sep, "--kernel", paths.kernel@);
    let fr = flag(sep, "--ramdisk", paths.ramdisk@);
    assert(whole == hv + fo + fp + fk + fr);
    assert(whole =~= hv + fo + (fp + fk + fr));
    lemma_infix(hv, fo, fp + fk + fr);
    assert(whole =~= (hv + fo) + fp + (fk + fr));
    lemma_infix(hv + fo, fp, fk + fr);
    assert(whole.subrange(0, hv.len() as int) =~= hv);
}

/// The layout block of the `mkbootimg` arguments of a version 0, 1 or 2
/// header holds each offset, the board and the command line.
#[verifier::rlimit(40)]
proof fn lemma_mkbootimg_layout_values(v: HeaderV0, null: bool)
    ensures
        ({
            let sep = separator(null);
            let whole = mkbootimg_layout_v0(v, null);
            &&& has_infix(whole, flag(sep, "--pagesize", hex32(v.page_size)))
            &&& has_infix(whole, flag(sep, "--base", hex32(0)))
            &&& has_infix(whole, flag(sep, "--kernel_offset", hex32(v.kernel_addr)))
            &&& has_infix(whole, flag(sep, "--ramdisk_offset", hex32(v.ramdisk_addr)))
            &&& has_infix(whole, flag(sep, "--second_offset", hex32(v.second_bootloader_addr)))
            &&& has_infix(whole, flag(sep, "--tags_offset", hex32(v.tags_addr)))
            &&& has_infix(whole, flag(sep, "--board", string_arg(v.board_name@, null)))
            &&& has_infix(whole, flag(sep, "--cmdline", quoted_arg(full_cmdline_v0(v), null)))
        }),
{
    let sep = separator(null);
    let whole = mkbootimg_layout_v0(v, null);
    let f1 = flag(sep, "--pagesize", hex32(v.page_size));
    let f2 = flag(sep, "--base", hex32(0));
    let f3 = flag(sep, "--kernel_offset", hex32(v.kernel_addr));
    let f4 = flag(sep, "--ramdisk_offset", hex32(v.ramdisk_addr));
    let f5 = flag(sep, "--second_offset", hex32(v.second_bootloader_addr));
    let f6 = flag(sep, "--tags_offset", hex32(v.tags_addr));
    let fd = match v.versioned {
        HeaderV0Versioned::V2 { dtb_addr, .. } => flag(sep, "--dtb_offset", hex64(dtb_addr)),
        _ => Seq::empty(),
    };
    let fb = flag(sep, "--board", string_arg(v.board_name@, null));
    let fc = flag(sep, "--cmdline", quoted_arg(full_cmdline_v0(v), null));
    assert(whole == f1 + f2 + f3 + f4 + f5 + f6 + fd + fb + fc);
    assert(has_infix(whole, f1)) by {
        assert(whole =~= (Seq::<u8>::empty()) + f1 + (f2 + f3 + f4 + f5 + f6 + fd + fb + fc));
        lemma_infix(Seq::<u8>::empty(), f1, f2 + f3 + f4 + f5 + f6 + fd + fb + fc);
    }
    assert(has_infix(whole, f2)) by {
        assert(whole =~= (f1) + f2 + (f3 + f4 + f5 + f6 + fd + fb + fc));
        lemma_infix(f1, f2, f3 + f4 + f5 + f6 + fd + fb + fc);
    }
    assert(has_infix(whole, f3)) by {
        assert(whole =~= (f1 + f2) + f3 + (f4 + f5 + f6 + fd + fb + fc));
        lemma_infix(f1 + f2, f3, f4 + f5 + f6 + fd + fb + fc);
    }
    assert(has_infix(whole, f4)) by {
        assert(whole =~= (f1 + f2 + f3) + f4 + (f5 + f6 + fd + fb + fc));
        lemma_infix(f1 + f2 + f3, f4, f5 + f6 + fd + fb + fc);
    }
    assert(has_infix(whole, f5)) by {
        assert(whole =~= (f1 + f2 + f3 + f4) + f5 + (f6 + fd + fb + fc));
        lemma_infix(f1 + f2 + f3 + f4, f5, f6 + fd + fb + fc);
    }
    assert(has_infix(whole, f6)) by {
        assert(whole =~= (f1 + f2 + f3 + f4 + f5) + f6 + (fd + fb + fc));
        lemma_infix(f1 + f2 + f3 + f4 + f5, f6, fd + fb + fc);
    }
    assert(has_infix(whole, fb)) by {
        assert(whole =~= (f1 + f2 + f3 + f4 + f5 + f6 + fd) + fb + (fc));
        lemma_infix(f1 + f2 + f3 + f4 + f5 + f6 + fd, fb, fc);
    }
    assert(has_infix(whole, fc)) by {
        assert(whole =~= (f1 + f2 + f3 + f4 + f5 + f6 + fd + fb) + fc + (Seq::<u8>::empty()));
        lemma_infix(f1 + f2 + f3 + f4 + f5 + f6 + fd + fb, fc, Seq::<u8>::empty());
    }
}

/// The `mkbootimg` arguments start with the header version, and hold, each
/// after a separator and its name and a separator: the OS version and patch
/// level as numerals; for a version 0, 1 or 2 header also the page size, a
/// base of 0, the kernel, ramdisk, second bootloader and tags offsets as `0x`
/// and eight hexadecimal digits, the board (the bytes before its first null)
/// and the command line (the bytes before the first null of its first 512
/// bytes, then those before the first null of its last 1024 bytes), both raw
/// in null mode and quoted for a shell otherwise.
pub proof fn lemma_mkbootimg_values(h: Header, paths: OutPaths, null: bool)
    ensures
        ({
            let t = mkbootimg_text(h, paths, null);
            let sep = separator(null);
            let start = "--header_version".spec_bytes() + seq![sep] + decimal(version_of(h) as nat);
            &&& t.len() >= start.len() && t.subrange(0, start.len() as int) == start
            &&& has_infix(t, arg_bytes(sep, "--os_version", version_text(unpack_version(h.spec_osversionpatch().0))))
            &&& has_infix(t, arg_bytes(sep, "--os_patch_level", patch_text(unpack_patch(h.spec_osversionpatch().0))))
            &&& match h {
                Header::V0(v) => {
                    let board = until_null(v.board_name@);
                    let cmdline = until_null(v.cmdline@.subrange(0, 512)) + until_null(v.cmdline@.subrange(512, 1536));
                    &&& has_infix(t, arg_bytes(sep, "--pagesize", hex32(v.page_size)))
                    &&& has_infix(t, arg_bytes(sep, "--base", hex32(0)))
                    &&& has_infix(t, arg_bytes(sep, "--kernel_offset", hex32(v.kernel_addr)))
                    &&& has_infix(t, arg_bytes(sep, "--ramdisk_offset", hex32(v.ramdisk_addr)))
                    &&& has_infix(t, arg_bytes(sep, "--second_offset", hex32(v.second_bootloader_addr)))
                    &&& has_infix(t, arg_bytes(sep, "--tags_offset", hex32(v.tags_addr)))
                    &&& has_infix(t, arg_bytes(sep, "--board", if null { board } else { shell_quoted(board) }))
                    &&& has_infix(t, arg_bytes(sep, "--cmdline", if null { cmdline } else { shell_quoted(cmdline) }))
                },
                Header::V3(_) => true,
            }
        }),
{
    let t = mkbootimg_text(h, paths, null);
    let sep = separator(null);
    let head = mkbootimg_head(h, paths, null);
    let end: Seq<u8> = if null {
        seq![0u8]
    } else {
        seq![10u8]
    };
    lemma_mkbootimg_split(h, paths, null);
    lemma_mkbootimg_head_values(h, paths, null);
    let body = t.subrange(head.len() as int, t.len() - 1);
    assert(t =~= Seq::<u8>::empty() + head + (body + end));
    lemma_infix(Seq::<u8>::empty(), head, body + end);
    let hv = "--header_version".spec_bytes() + seq![sep] + decimal(version_of(h) as nat);
    assert(t.subrange(0, hv.len() as int) =~= head.subrange(0, hv.len() as int));
    lemma_infix_trans(t, head, flag(sep, "--os_version", version_text(unpack_version(h.spec_osversionpatch().0))));
    lemma_infix_trans(t, head, flag(sep, "--os_patch_level", patch_text(unpack_patch(h.spec_osversionpatch().0))));
    if let Header::V0(v) = h {
        let layout = mkbootimg_layout_v0(v, null);
        let parts = mkbootimg_parts_v0(v, paths, sep);
        assert(t =~= (head + parts) + layout + end);
        lemma_infix(head + parts, layout, end);
        lemma_mkbootimg_layout_values(v, null);
        lemma_infix_trans(t, layout, flag(sep, "--pagesize", hex32(v.page_size)));
        lemma_infix_trans(t, layout, flag(sep, "--base", hex32(0)));
        lemma_infix_trans(t, layout, flag(sep, "--kernel_offset", hex32(v.kernel_addr)));
        lemma_infix_trans(t, layout, flag(sep, "--ramdisk_offset", hex32(v.ramdisk_addr)));
        lemma_infix_trans(t, layout, flag(sep, "--second_offset", hex32(v.second_bootloader_addr)));
        lemma_infix_trans(t, layout, flag(sep, "--tags_offset", hex32(v.tags_addr)));
        lemma_infix_trans(t, layout, flag(sep, "--board", string_arg(v.board_name@, null)));
        lemma_infix_trans(t, layout, flag(sep, "--cmdline", quoted_arg(full_cmdline_v0(v), null)));
    }
}

/// The `mkbootimg` arguments name a path only for a part that the image has:
/// two sets of paths that agree on the kernel and the ramdisk, on the second
/// bootloader where its size is not zero, on the recovery DTBO where the header
/// is of version 1 or 2 and its size is not zero, and on the DTB where the
/// header is of version 2 and its size is not zero, give the same text.
pub proof fn lemma_mkbootimg_unused_paths(h: Header, p: OutPaths, q: OutPaths, null: bool)
    requires
        p.kernel@ == q.kernel@,
        p.ramdisk@ == q.ramdisk@,
        h matches Header::V0(v) && v.second_bootloader_size != 0 ==> p.second@ == q.second@,
        h matches Header::V0(v) && (recovery_dtbo_field(v.versioned) matches Some(s) && s != 0)
            ==> p.recovery_dtbo@ == q.recovery_dtbo@,
        h matches Header::V0(v) && (v.versioned matches HeaderV0Versioned::V2 { dtb_size, .. }
            && dtb_size != 0) ==> p.dtb@ == q.dtb@,
    ensures
        mkbootimg_text(h, p, null) == mkbootimg_text(h, q, null),
{
    assert(mkbootimg_head(h, p, null) == mkbootimg_head(h, q, null));
    if let Header::V0(v) = h {
        let sep = separator(null);
        assert(mkbootimg_parts_v0(v, p, sep) == mkbootimg_parts_v0(v, q, sep));
    }
}

} // verus!
