use abootimg_oxide::digest::{build_hash_message, digest_of, is_sha1_digest, pad_digest};
use abootimg_oxide::{
    escaped_null_bytestring, take_until_null, HashAlgorithm, HeaderV0, Part, PartKind,
};
use sha1::Digest;

#[test]
fn take_until_null_stops_at_first_null() {
    assert_eq!(take_until_null(b"abc\0def\0"), b"abc");
    assert_eq!(take_until_null(b"abc"), b"abc");
    assert_eq!(take_until_null(b"\0abc"), b"");
    assert_eq!(take_until_null(b""), b"");
}

#[test]
fn escaping_quotes_for_a_shell() {
    assert_eq!(escaped_null_bytestring(b"plain_word-1.2\0junk"), b"plain_word-1.2".to_vec());
    assert_eq!(escaped_null_bytestring(b"two words\0"), b"'two words'".to_vec());
    assert_eq!(escaped_null_bytestring(b"it's"), b"\"it's\"".to_vec());
    assert_eq!(escaped_null_bytestring(b"\0ignored"), b"''".to_vec());
}

#[test]
fn message_sizes_follow_parts() {
    let m = build_hash_message(b"ab", b"", b"c", Some(b"dd"), None);
    assert_eq!(m, b"ab\x02\x00\x00\x00\x00\x00\x00\x00c\x01\x00\x00\x00dd\x02\x00\x00\x00".to_vec());
    let m = build_hash_message(b"", b"", b"", None, Some(b"x"));
    assert_eq!(m, b"\0\0\0\0\0\0\0\0\0\0\0\0x\x01\0\0\0".to_vec());
}

#[test]
fn sha1_digest_is_padded() {
    let d = digest_of(HashAlgorithm::Sha1, b"abc");
    let expected = sha1::Sha1::digest(b"abc");
    assert_eq!(&d[..20], expected.as_slice());
    assert_eq!(&d[20..], &[0u8; 12]);
    assert_eq!(d[0], 0xa9);
    assert!(is_sha1_digest(&d));
}

#[test]
fn sha256_digest_fills_the_field() {
    let d = digest_of(HashAlgorithm::Sha256, b"abc");
    let expected = sha2::Sha256::digest(b"abc");
    assert_eq!(&d[..], expected.as_slice());
    assert_eq!(d[0], 0xba);
    assert!(!is_sha1_digest(&d));
}

#[test]
fn compute_hash_digest_over_parts() {
    let d = HeaderV0::compute_hash_digest(
        HashAlgorithm::Sha1,
        b"kernel",
        b"ramdisk",
        b"",
        Some(b"rdtbo"),
        None,
    );
    let mut msg = Vec::new();
    msg.extend_from_slice(b"kernel");
    msg.extend_from_slice(&6u32.to_le_bytes());
    msg.extend_from_slice(b"ramdisk");
    msg.extend_from_slice(&7u32.to_le_bytes());
    msg.extend_from_slice(&0u32.to_le_bytes());
    msg.extend_from_slice(b"rdtbo");
    msg.extend_from_slice(&5u32.to_le_bytes());
    let expected = sha1::Sha1::digest(&msg);
    assert_eq!(&d[..20], expected.as_slice());
    assert_eq!(&d[20..], &[0u8; 12]);
}

#[test]
fn pad_digest_appends_zeros() {
    assert_eq!(pad_digest(&[1, 2, 3])[..4], [1, 2, 3, 0]);
    assert_eq!(pad_digest(&[7; 32]), [7; 32]);
}

#[test]
fn sha1_heuristic() {
    let mut d = [0u8; 32];
    assert!(is_sha1_digest(&d));
    d[31] = 1;
    assert!(!is_sha1_digest(&d));
    d[31] = 0;
    d[19] = 1;
    assert!(is_sha1_digest(&d));
}

fn v2_header() -> HeaderV0 {
    let mut b = vec![0u8; 1660];
    b[..8].copy_from_slice(b"ANDROID!");
    b[8..12].copy_from_slice(&4660u32.to_le_bytes());
    b[16..20].copy_from_slice(&5000u32.to_le_bytes());
    b[24..28].copy_from_slice(&77u32.to_le_bytes());
    b[36..40].copy_from_slice(&2048u32.to_le_bytes());
    b[40..44].copy_from_slice(&2u32.to_le_bytes());
    b[576] = 9;
    b[1632..1636].copy_from_slice(&100u32.to_le_bytes());
    b[1648..1652].copy_from_slice(&300u32.to_le_bytes());
    match abootimg_oxide::Header::parse(&b).unwrap() {
        abootimg_oxide::Header::V0(v) => v,
        abootimg_oxide::Header::V3(_) => panic!("expected a version 0-2 header"),
    }
}

#[test]
fn digest_parts_of_version_two() {
    let v = v2_header();
    assert_eq!(
        v.digest_parts(),
        vec![
            Part { kind: PartKind::Kernel, position: 2048, size: 4660 },
            Part { kind: PartKind::Ramdisk, position: 8192, size: 5000 },
            Part { kind: PartKind::SecondBootloader, position: 14336, size: 77 },
            Part { kind: PartKind::RecoveryDtbo, position: 16384, size: 100 },
            Part { kind: PartKind::Dtb, position: 18432, size: 300 },
        ]
    );
}

#[test]
fn computed_digest_of_version_two() {
    let v = v2_header();
    // the stored digest 09 00 .. 00 looks like a SHA-1 one
    assert_eq!(v.digest_algorithm(), HashAlgorithm::Sha1);
    let contents = vec![b"k".to_vec(), b"r".to_vec(), b"s".to_vec(), b"o".to_vec(), b"d".to_vec()];
    let d = v.computed_hash_digest(&contents);
    let mut msg = Vec::new();
    for part in &contents {
        msg.extend_from_slice(part);
        msg.extend_from_slice(&1u32.to_le_bytes());
    }
    assert_eq!(&d[..20], sha1::Sha1::digest(&msg).as_slice());
    assert_eq!(&d[20..], &[0u8; 12]);
}

#[test]
fn shell_quote_leaves_safe_bytes() {
    use_shell_quote(b"out/kernel-1.2_x", b"out/kernel-1.2_x");
    use_shell_quote(b"a=b", b"'a=b'");
    use_shell_quote(b"", b"''");
}

fn use_shell_quote(input: &[u8], expected: &[u8]) {
    assert_eq!(abootimg_oxide::bytestring::shell_quote(input), expected.to_vec());
}
