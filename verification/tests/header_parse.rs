use abootimg_oxide::{Header, HeaderV0Versioned, OsPatch, OsVersion, OsVersionPatch, ParseError};

fn put32(b: &mut [u8], off: usize, x: u32) {
    b[off..off + 4].copy_from_slice(&x.to_le_bytes());
}

fn put64(b: &mut [u8], off: usize, x: u64) {
    b[off..off + 8].copy_from_slice(&x.to_le_bytes());
}

fn put_str(b: &mut [u8], off: usize, s: &str) {
    b[off..off + s.len()].copy_from_slice(s.as_bytes());
}

/// 11.0.0, 2021-03
const OS_VERSION: u32 = (11 << 25) | (21 << 4) | 3;

fn v0_image(version: u32) -> Vec<u8> {
    let mut b = vec![0u8; 1660];
    put_str(&mut b, 0, "ANDROID!");
    put32(&mut b, 8, 4660);
    put32(&mut b, 12, 0x1000_8000);
    put32(&mut b, 16, 5000);
    put32(&mut b, 20, 0x1100_0000);
    put32(&mut b, 24, 0);
    put32(&mut b, 28, 0x10f0_0000);
    put32(&mut b, 32, 0x1000_0100);
    put32(&mut b, 36, 2048);
    put32(&mut b, 40, version);
    put32(&mut b, 44, OS_VERSION);
    put_str(&mut b, 48, "mydevice");
    put_str(&mut b, 64, "console=ttyS0 quiet");
    for i in 0..20 {
        b[576 + i] = (i + 1) as u8;
    }
    put_str(&mut b, 608, "extra=1");
    if version >= 1 {
        put32(&mut b, 1632, 100);
        put64(&mut b, 1636, 0x2000);
        put32(&mut b, 1644, if version == 1 { 1648 } else { 1660 });
    }
    if version == 2 {
        put32(&mut b, 1648, 300);
        put64(&mut b, 1652, 0x11f0_0000);
    }
    let len = [1632, 1648, 1660][version as usize];
    b.truncate(len);
    b
}

fn v3_image(version: u32) -> Vec<u8> {
    let mut b = vec![0u8; 1584];
    put_str(&mut b, 0, "ANDROID!");
    put32(&mut b, 8, 10000);
    put32(&mut b, 12, 20000);
    put32(&mut b, 16, OS_VERSION);
    put32(&mut b, 20, if version == 4 { 1584 } else { 1580 });
    put32(&mut b, 40, version);
    put_str(&mut b, 44, "androidboot.hardware=x");
    if version == 4 {
        put32(&mut b, 1580, 4096);
    } else {
        b.truncate(1580);
    }
    b
}

#[test]
fn parses_version_two_header() {
    let bytes = v0_image(2);
    let hdr = Header::parse(&bytes).unwrap();
    let v0 = match hdr {
        Header::V0(v) => v,
        Header::V3(_) => panic!("expected a version 0-2 header"),
    };
    assert_eq!(v0.kernel_size, 4660);
    assert_eq!(v0.kernel_addr, 0x1000_8000);
    assert_eq!(v0.ramdisk_size, 5000);
    assert_eq!(v0.ramdisk_addr, 0x1100_0000);
    assert_eq!(v0.second_bootloader_size, 0);
    assert_eq!(v0.second_bootloader_addr, 0x10f0_0000);
    assert_eq!(v0.tags_addr, 0x1000_0100);
    assert_eq!(v0.page_size, 2048);
    assert_eq!(&v0.board_name[..8], b"mydevice");
    assert_eq!(&v0.cmdline[..19], b"console=ttyS0 quiet");
    assert_eq!(&v0.cmdline[512..519], b"extra=1");
    assert_eq!(v0.hash_digest[0], 1);
    assert_eq!(v0.hash_digest[19], 20);
    assert_eq!(v0.hash_digest[20], 0);
    assert_eq!(
        v0.versioned,
        HeaderV0Versioned::V2 {
            recovery_dtbo_size: 100,
            recovery_dtbo_addr: 0x2000,
            dtb_size: 300,
            dtb_addr: 0x11f0_0000,
        }
    );
    assert_eq!(hdr.header_version(), 2);
    assert_eq!(hdr.page_size(), 2048);
    assert_eq!(hdr.kernel_size(), 4660);
    assert_eq!(hdr.ramdisk_size(), 5000);
}

#[test]
fn version_two_layout() {
    let hdr = Header::parse(&v0_image(2)).unwrap();
    assert_eq!(hdr.kernel_position(), 2048);
    assert_eq!(hdr.ramdisk_position(), 8192);
    let Header::V0(v0) = hdr else { panic!("expected a version 0-2 header") };
    assert_eq!(v0.second_bootloader_position(), 14336);
    assert_eq!(v0.recovery_dtbo_position(), 14336);
    assert_eq!(v0.recovery_dtbo_size(), 100);
    assert_eq!(v0.dtb_position(), Some(16384));
}

#[test]
fn version_zero_and_one_headers() {
    let hdr = Header::parse(&v0_image(0)).unwrap();
    assert_eq!(hdr.header_version(), 0);
    let Header::V0(v0) = hdr else { panic!("expected a version 0-2 header") };
    assert_eq!(v0.versioned, HeaderV0Versioned::V0);
    assert_eq!(v0.dtb_position(), None);
    assert_eq!(v0.recovery_dtbo_size(), 0);

    let hdr = Header::parse(&v0_image(1)).unwrap();
    assert_eq!(hdr.header_version(), 1);
    let Header::V0(v1) = hdr else { panic!("expected a version 0-2 header") };
    assert_eq!(
        v1.versioned,
        HeaderV0Versioned::V1 { recovery_dtbo_size: 100, recovery_dtbo_addr: 0x2000 }
    );
    assert_eq!(v1.dtb_position(), None);
}

#[test]
fn parses_version_three_and_four_headers() {
    let hdr = Header::parse(&v3_image(4)).unwrap();
    assert_eq!(hdr.header_version(), 4);
    assert_eq!(hdr.page_size(), 4096);
    let Header::V3(v3) = hdr else { panic!("expected a version 3-4 header") };
    assert_eq!(v3.kernel_size, 10000);
    assert_eq!(v3.ramdisk_size, 20000);
    assert_eq!(v3.v4_signature_size, Some(4096));
    assert_eq!(&v3.cmdline[..22], b"androidboot.hardware=x");
    assert_eq!(v3.kernel_position(), 4096);
    assert_eq!(v3.ramdisk_position(), 16384);
    assert_eq!(v3.bootsig_position(), 36864);

    let hdr = Header::parse(&v3_image(3)).unwrap();
    assert_eq!(hdr.header_version(), 3);
    let Header::V3(v3) = hdr else { panic!("expected a version 3-4 header") };
    assert_eq!(v3.v4_signature_size, None);
}

#[test]
fn parse_errors() {
    assert_eq!(Header::parse(b"ANDRO").unwrap_err(), ParseError::UnexpectedEnd);
    let mut bad = v0_image(0);
    bad[7] = b'?';
    assert_eq!(Header::parse(&bad).unwrap_err(), ParseError::BadMagic);
    assert_eq!(Header::parse(&v0_image(0)[..40]).unwrap_err(), ParseError::UnexpectedEnd);
    assert_eq!(Header::parse(&v0_image(2)[..1650]).unwrap_err(), ParseError::UnexpectedEnd);
    let mut v5 = v0_image(0);
    put32(&mut v5, 40, 5);
    assert_eq!(Header::parse(&v5).unwrap_err(), ParseError::UnsupportedVersion(5));
    let mut zero_page = v0_image(0);
    put32(&mut zero_page, 36, 0);
    assert_eq!(Header::parse(&zero_page).unwrap_err(), ParseError::ZeroPageSize);
}

#[test]
fn bytes_round_trip() {
    for version in 0..3 {
        let bytes = v0_image(version);
        let hdr = Header::parse(&bytes).unwrap();
        assert_eq!(hdr.to_bytes(), bytes);
    }
    for version in 3..5 {
        let bytes = v3_image(version);
        let hdr = Header::parse(&bytes).unwrap();
        assert_eq!(hdr.to_bytes(), bytes);
    }
}

#[test]
fn parse_ignores_trailing_bytes() {
    let mut bytes = v0_image(1);
    bytes.extend_from_slice(&[0xaa; 100]);
    let hdr = Header::parse(&bytes).unwrap();
    assert_eq!(hdr.to_bytes(), bytes[..1648].to_vec());
}

#[test]
fn os_version_unpacks() {
    let hdr = Header::parse(&v0_image(0)).unwrap();
    let osvp = hdr.osversionpatch();
    assert_eq!(osvp, OsVersionPatch(OS_VERSION));
    assert_eq!(osvp.version(), OsVersion { major: 11, minor: 0, patch: 0 });
    assert_eq!(osvp.patch(), OsPatch { year: 2021, month: 3 });
    assert_eq!(osvp.version().render(), b"11.0.0".to_vec());
    assert_eq!(osvp.patch().render(), b"2021-03".to_vec());
}

#[test]
fn os_version_packs() {
    let v = OsVersion { major: 12, minor: 1, patch: 127 };
    let p = OsPatch { year: 2127, month: 12 };
    let packed = OsVersionPatch::new(v, p).unwrap();
    assert_eq!(packed.0, (12 << 25) | (1 << 18) | (127 << 11) | (127 << 4) | 12);
    assert_eq!(packed.version(), v);
    assert_eq!(packed.patch(), p);
    assert_eq!(OsVersionPatch::new(OsVersion { major: 128, minor: 0, patch: 0 }, p), None);
    assert_eq!(OsVersionPatch::new(v, OsPatch { year: 1999, month: 1 }), None);
    assert_eq!(OsVersionPatch::new(v, OsPatch { year: 2020, month: 16 }), None);
}

#[test]
fn os_version_zero() {
    let osvp = OsVersionPatch(0);
    assert_eq!(osvp.version().render(), b"0.0.0".to_vec());
    assert_eq!(osvp.patch().render(), b"2000-00".to_vec());
    assert_eq!(OsVersionPatch::new(osvp.version(), osvp.patch()), Some(osvp));
}
