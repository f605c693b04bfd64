use abootimg_oxide::{
    extraction_plan, info_fmt, mkbootimg_fmt, Header, OutPaths, Part, PartKind,
};

fn put32(b: &mut [u8], off: usize, x: u32) {
    b[off..off + 4].copy_from_slice(&x.to_le_bytes());
}

fn put64(b: &mut [u8], off: usize, x: u64) {
    b[off..off + 8].copy_from_slice(&x.to_le_bytes());
}

fn put_str(b: &mut [u8], off: usize, s: &str) {
    b[off..off + s.len()].copy_from_slice(s.as_bytes());
}

const OS_VERSION: u32 = (11 << 25) | (21 << 4) | 3;

fn v0_image(version: u32, second_size: u32) -> Vec<u8> {
    let mut b = vec![0u8; 1660];
    put_str(&mut b, 0, "ANDROID!");
    put32(&mut b, 8, 4660);
    put32(&mut b, 12, 0x1000_8000);
    put32(&mut b, 16, 5000);
    put32(&mut b, 20, 0x1100_0000);
    put32(&mut b, 24, second_size);
    put32(&mut b, 28, 0x10f0_0000);
    put32(&mut b, 32, 0x1000_0100);
    put32(&mut b, 36, 2048);
    put32(&mut b, 40, version);
    put32(&mut b, 44, OS_VERSION);
    put_str(&mut b, 48, "mydevice");
    put_str(&mut b, 64, "console=ttyS0 quiet");
    for i in 0..20 {
        b[576 + i] = (i + 1) as u8;
    }
    put_str(&mut b, 608, "extra=1");
    if version >= 1 {
        put32(&mut b, 1632, 100);
        put64(&mut b, 1636, 0x2000);
        put32(&mut b, 1644, if version == 1 { 1648 } else { 1660 });
    }
    if version == 2 {
        put32(&mut b, 1648, 300);
        put64(&mut b, 1652, 0x11f0_0000);
    }
    b
}

fn v3_image(version: u32, sig: u32) -> Vec<u8> {
    let mut b = vec![0u8; 1584];
    put_str(&mut b, 0, "ANDROID!");
    put32(&mut b, 8, 10000);
    put32(&mut b, 12, 20000);
    put32(&mut b, 16, OS_VERSION);
    put32(&mut b, 20, 1584);
    put32(&mut b, 40, version);
    put_str(&mut b, 44, "androidboot.hardware=x");
    put32(&mut b, 1580, sig);
    b
}

fn paths() -> OutPaths {
    OutPaths {
        kernel: b"out/kernel".to_vec(),
        ramdisk: b"out/ramdisk".to_vec(),
        second: b"out/second".to_vec(),
        recovery_dtbo: b"out/recovery_dtbo".to_vec(),
        dtb: b"out/dtb".to_vec(),
    }
}

#[test]
fn info_of_version_two() {
    let hdr = Header::parse(&v0_image(2, 0)).unwrap();
    let expected = "boot magic: ANDROID!\n\
kernel_size: 4660\n\
kernel load address: 0x10008000\n\
ramdisk size: 5000\n\
ramdisk load address: 0x11000000\n\
second bootloader size: 0\n\
second bootloader load address: 0x10f00000\n\
kernel tags load address: 0x10000100\n\
page size: 2048\n\
os version: 11.0.0\n\
os patch level: 2021-03\n\
boot image header version: 2\n\
product name: mydevice\n\
command line args: console=ttyS0 quiet\n\
additional command line args: extra=1\n\
recovery dtbo size: 100\n\
recovery dtbo offset: 0x0000000000002000\n\
boot header size: 1660\n\
dtb size: 300\n\
dtb address: 0x0000000011f00000\n";
    assert_eq!(String::from_utf8(info_fmt(&hdr, None)).unwrap(), expected);
}

#[test]
fn info_of_version_one() {
    let hdr = Header::parse(&v0_image(1, 0)).unwrap();
    let text = String::from_utf8(info_fmt(&hdr, None)).unwrap();
    assert!(text.ends_with(
        "additional command line args: extra=1\n\
recovery dtbo size: 100\n\
recovery dtbo offset: 0x0000000000002000\n\
boot header size: 1648\n"
    ));
    assert!(text.contains("boot image header version: 1\n"));
}

#[test]
fn extended_info_shows_both_digests() {
    let hdr = Header::parse(&v0_image(0, 0)).unwrap();
    let computed = [0xabu8; 32];
    let text = String::from_utf8(info_fmt(&hdr, Some(&computed))).unwrap();
    let expected = "page size: 2048\n\
hash digest in header: 0102030405060708090a0b0c0d0e0f1011121314000000000000000000000000\n\
computed hash digest: abababababababababababababababababababababababababababababababab\n\
os version: 11.0.0\n";
    assert!(text.contains(expected), "{text}");
    assert!(text.ends_with("additional command line args: extra=1\n"));
}

#[test]
fn info_of_version_four() {
    let hdr = Header::parse(&v3_image(4, 4096)).unwrap();
    let expected = "boot magic: ANDROID!\n\
kernel_size: 10000\n\
ramdisk size: 20000\n\
os version: 11.0.0\n\
os patch level: 2021-03\n\
boot image header version: 4\n\
command line args: androidboot.hardware=x\n\
boot.img signature size: 4096\n";
    assert_eq!(String::from_utf8(info_fmt(&hdr, None)).unwrap(), expected);
    // a version 3 or 4 header has no digest to show
    assert_eq!(String::from_utf8(info_fmt(&hdr, Some(&[0; 32]))).unwrap(), expected);
}

#[test]
fn info_of_version_three() {
    let hdr = Header::parse(&v3_image(3, 0)).unwrap();
    let text = String::from_utf8(info_fmt(&hdr, None)).unwrap();
    assert!(text.ends_with("boot image header version: 3\ncommand line args: androidboot.hardware=x\n"));
}

#[test]
fn mkbootimg_args_of_version_two() {
    let hdr = Header::parse(&v0_image(2, 0)).unwrap();
    let expected = "--header_version 2 --os_version 11.0.0 --os_patch_level 2021-03 \
--kernel out/kernel --ramdisk out/ramdisk --recovery_dtbo out/recovery_dtbo --dtb out/dtb \
--pagesize 0x00000800 --base 0x00000000 --kernel_offset 0x10008000 \
--ramdisk_offset 0x11000000 --second_offset 0x10f00000 --tags_offset 0x10000100 \
--dtb_offset 0x0000000011f00000 --board mydevice --cmdline 'console=ttyS0 quietextra=1'\n";
    assert_eq!(String::from_utf8(mkbootimg_fmt(&hdr, &paths(), false)).unwrap(), expected);
}

#[test]
fn mkbootimg_args_null_separated() {
    let hdr = Header::parse(&v0_image(0, 77)).unwrap();
    let expected = "--header_version\x000\x00--os_version\x0011.0.0\x00--os_patch_level\x002021-03\
\x00--kernel\x00out/kernel\x00--ramdisk\x00out/ramdisk\x00--second\x00out/second\
\x00--pagesize\x000x00000800\x00--base\x000x00000000\x00--kernel_offset\x000x10008000\
\x00--ramdisk_offset\x000x11000000\x00--second_offset\x000x10f00000\x00--tags_offset\x000x10000100\
\x00--board\x00mydevice\x00--cmdline\x00console=ttyS0 quietextra=1\x00";
    assert_eq!(String::from_utf8(mkbootimg_fmt(&hdr, &paths(), true)).unwrap(), expected);
}

#[test]
fn mkbootimg_args_of_version_four() {
    let hdr = Header::parse(&v3_image(4, 4096)).unwrap();
    assert_eq!(
        String::from_utf8(mkbootimg_fmt(&hdr, &paths(), false)).unwrap(),
        "--header_version 4 --os_version 11.0.0 --os_patch_level 2021-03 \
--kernel out/kernel --ramdisk out/ramdisk --cmdline 'androidboot.hardware=x'\n"
    );
    assert_eq!(
        String::from_utf8(mkbootimg_fmt(&hdr, &paths(), true)).unwrap(),
        "--header_version\x004\x00--os_version\x0011.0.0\x00--os_patch_level\x002021-03\
\x00--kernel\x00out/kernel\x00--ramdisk\x00out/ramdisk\x00--cmdline\x00androidboot.hardware=x\x00"
    );
}

#[test]
fn mkbootimg_dtb_offset_null_separated() {
    let hdr = Header::parse(&v0_image(2, 0)).unwrap();
    let text = String::from_utf8(mkbootimg_fmt(&hdr, &paths(), true)).unwrap();
    assert!(text.contains(
        "\x00--tags_offset\x000x10000100\x00--dtb_offset\x000x0000000011f00000\x00--board\x00"
    ), "{text:?}");
}

#[test]
fn mkbootimg_cmdline_joins_both_parts() {
    // a command line that fills its 512 bytes is followed directly by the extra one
    let mut bytes = v0_image(0, 0);
    bytes[64..576].fill(b'a');
    let hdr = Header::parse(&bytes).unwrap();
    let text = String::from_utf8(mkbootimg_fmt(&hdr, &paths(), true)).unwrap();
    let expected = format!("\x00--cmdline\x00{}extra=1\x00", "a".repeat(512));
    assert!(text.ends_with(&expected));
    // an empty command line leaves only the extra one
    let mut bytes = v0_image(0, 0);
    bytes[64..576].fill(0);
    let hdr = Header::parse(&bytes).unwrap();
    let text = String::from_utf8(mkbootimg_fmt(&hdr, &paths(), false)).unwrap();
    assert!(text.ends_with(" --cmdline 'extra=1'\n"), "{text}");
}

#[test]
fn empty_board_is_quoted() {
    let mut bytes = v0_image(0, 0);
    bytes[48..64].fill(0);
    let hdr = Header::parse(&bytes).unwrap();
    let text = String::from_utf8(mkbootimg_fmt(&hdr, &paths(), false)).unwrap();
    assert!(text.contains(" --board '' --cmdline "), "{text}");
}

#[test]
fn plan_of_version_two() {
    let hdr = Header::parse(&v0_image(2, 0)).unwrap();
    assert_eq!(
        extraction_plan(&hdr),
        vec![
            Part { kind: PartKind::Kernel, position: 2048, size: 4660 },
            Part { kind: PartKind::Ramdisk, position: 8192, size: 5000 },
            Part { kind: PartKind::RecoveryDtbo, position: 14336, size: 100 },
            Part { kind: PartKind::Dtb, position: 16384, size: 300 },
        ]
    );
}

#[test]
fn plan_with_second_bootloader() {
    let hdr = Header::parse(&v0_image(0, 77)).unwrap();
    assert_eq!(
        extraction_plan(&hdr),
        vec![
            Part { kind: PartKind::Kernel, position: 2048, size: 4660 },
            Part { kind: PartKind::Ramdisk, position: 8192, size: 5000 },
            Part { kind: PartKind::SecondBootloader, position: 14336, size: 77 },
        ]
    );
}

#[test]
fn plan_of_version_four() {
    let hdr = Header::parse(&v3_image(4, 4096)).unwrap();
    assert_eq!(
        extraction_plan(&hdr),
        vec![
            Part { kind: PartKind::Kernel, position: 4096, size: 10000 },
            Part { kind: PartKind::Ramdisk, position: 16384, size: 20000 },
            Part { kind: PartKind::BootSignature, position: 36864, size: 4096 },
        ]
    );
    // a zero signature size extracts no signature
    let hdr = Header::parse(&v3_image(4, 0)).unwrap();
    assert_eq!(extraction_plan(&hdr).len(), 2);
}

#[test]
fn part_file_names() {
    assert_eq!(PartKind::Kernel.file_name(), "kernel");
    assert_eq!(PartKind::Ramdisk.file_name(), "ramdisk");
    assert_eq!(PartKind::SecondBootloader.file_name(), "second");
    assert_eq!(PartKind::RecoveryDtbo.file_name(), "recovery_dtbo");
    assert_eq!(PartKind::Dtb.file_name(), "dtb");
    assert_eq!(PartKind::BootSignature.file_name(), "boot_signature");
}
