use patchy::container::{
    apply_container, create_patch, decode_container, encode_container, validate_patch,
    PatchError,
};
use patchy::hash::compute_hash_strong;
use patchy::patchy::{build_patch, compute_blocks, compute_diff, CopyCmd, Patch};

fn compress(data: &[u8]) -> Vec<u8> {
    zstd::stream::encode_all(data, 3).unwrap()
}

fn make_parts(base: &[u8], other: &[u8], bs: usize) -> Patch {
    let blocks = compute_blocks(other, bs);
    let pc = compute_diff(base, &blocks, bs);
    build_patch(other, &pc)
}

#[test]
fn container_round_trip_reconstructs_other() {
    let base = b"a moderately long base string, 0123456789".to_vec();
    let other = b"a somewhat different other string, 9876543210".to_vec();
    let bytes = create_patch(&base, &other, 4, 3).unwrap();
    let out = apply_container(&base, &bytes).unwrap();
    assert_eq!(out, other);
}

#[test]
fn container_round_trip_equal_inputs() {
    let base = b"same bytes on both sides".to_vec();
    let bytes = create_patch(&base, &base, 8, 1).unwrap();
    let out = apply_container(&base, &bytes).unwrap();
    assert_eq!(out, base);
}

#[test]
fn encode_decode_round_trip() {
    let base = b"abcdef".to_vec();
    let other = b"cdefab".to_vec();
    let patch = make_parts(&base, &other, 2);
    let bh = compute_hash_strong(&base);
    let oh = compute_hash_strong(&other);
    let encoded = encode_container(&bh, &oh, &patch);
    let (bh2, oh2, patch2) = decode_container(&encoded).unwrap();
    assert!(bh == bh2);
    assert!(oh == oh2);
    assert_eq!(patch.data, patch2.data);
    assert_eq!(patch.base, patch2.base);
    assert_eq!(patch.other, patch2.other);
    assert_eq!(patch.other_size, patch2.other_size);
}

#[test]
fn tampered_base_hash_is_rejected() {
    let base = b"base bytes for the hash tamper check".to_vec();
    let other = b"other bytes for the hash tamper check!".to_vec();
    let patch = make_parts(&base, &other, 4);
    let bh = compute_hash_strong(&base);
    let oh = compute_hash_strong(&other);
    let mut encoded = encode_container(&bh, &oh, &patch);
    encoded[12] ^= 0xff;  // first byte of the recorded base hash
    let r = apply_container(&base, &compress(&encoded));
    assert_eq!(r.unwrap_err(), PatchError::BaseHashMismatch);
}

#[test]
fn tampered_other_hash_is_rejected() {
    let base = b"base bytes for the other-hash tamper check".to_vec();
    let other = b"other bytes for the other-hash tamper check".to_vec();
    let patch = make_parts(&base, &other, 4);
    let bh = compute_hash_strong(&base);
    let oh = compute_hash_strong(&other);
    let mut encoded = encode_container(&bh, &oh, &patch);
    encoded[28] ^= 0x01;  // first byte of the recorded other hash
    let r = apply_container(&base, &compress(&encoded));
    assert_eq!(r.unwrap_err(), PatchError::OtherHashMismatch);
}

#[test]
fn tampered_payload_is_rejected() {
    let base = b"aaa".to_vec();
    let other = b"bbb".to_vec();
    let mut patch = make_parts(&base, &other, 2);
    assert!(patch.data.len() > 0);
    patch.data[0] ^= 0x20;
    let bh = compute_hash_strong(&base);
    let oh = compute_hash_strong(&other);
    let encoded = encode_container(&bh, &oh, &patch);
    let r = apply_container(&base, &compress(&encoded));
    assert_eq!(r.unwrap_err(), PatchError::OtherHashMismatch);
}

#[test]
fn bad_magic_is_rejected() {
    let base = b"abcd".to_vec();
    let other = b"abce".to_vec();
    let patch = make_parts(&base, &other, 2);
    let bh = compute_hash_strong(&base);
    let oh = compute_hash_strong(&other);
    let mut encoded = encode_container(&bh, &oh, &patch);
    encoded[0] = b'?';
    let r = apply_container(&base, &compress(&encoded));
    assert_eq!(r.unwrap_err(), PatchError::BadMagic);
}

#[test]
fn bad_version_is_rejected() {
    let base = b"abcd".to_vec();
    let other = b"abce".to_vec();
    let patch = make_parts(&base, &other, 2);
    let bh = compute_hash_strong(&base);
    let oh = compute_hash_strong(&other);
    let mut encoded = encode_container(&bh, &oh, &patch);
    encoded[8] = 2;
    let r = apply_container(&base, &compress(&encoded));
    assert_eq!(r.unwrap_err(), PatchError::BadVersion);
}

#[test]
fn truncated_container_is_malformed() {
    let base = b"abcd".to_vec();
    let other = b"abce".to_vec();
    let patch = make_parts(&base, &other, 2);
    let bh = compute_hash_strong(&base);
    let oh = compute_hash_strong(&other);
    let mut encoded = encode_container(&bh, &oh, &patch);
    encoded.pop();
    let r = apply_container(&base, &compress(&encoded));
    assert_eq!(r.unwrap_err(), PatchError::Malformed);
}

#[test]
fn garbage_is_not_a_zstd_stream() {
    let r = apply_container(b"base", b"certainly not a zstd frame");
    assert_eq!(r.unwrap_err(), PatchError::DecompressFailed);
}

#[test]
fn validate_rejects_out_of_bounds_and_overlap() {
    let good = Patch {
        data: Vec::new(),
        base: vec![CopyCmd { source: 0, target: 0, size: 4 }],
        other: Vec::new(),
        other_size: 4,
    };
    assert!(validate_patch(&good, 4));
    let reads_past_base = Patch {
        data: Vec::new(),
        base: vec![CopyCmd { source: 2, target: 0, size: 4 }],
        other: Vec::new(),
        other_size: 4,
    };
    assert!(!validate_patch(&reads_past_base, 4));
    let overlapping = Patch {
        data: b"xx".to_vec(),
        base: vec![CopyCmd { source: 0, target: 0, size: 4 }],
        other: vec![CopyCmd { source: 0, target: 3, size: 2 }],
        other_size: 5,
    };
    assert!(!validate_patch(&overlapping, 4));
}

#[test]
fn unapplicable_commands_are_rejected() {
    let base = b"abcd".to_vec();
    let bad = Patch {
        data: Vec::new(),
        base: vec![CopyCmd { source: 100, target: 0, size: 4 }],
        other: Vec::new(),
        other_size: 4,
    };
    let bh = compute_hash_strong(&base);
    let oh = compute_hash_strong(b"efgh");
    let encoded = encode_container(&bh, &oh, &bad);
    let r = apply_container(&base, &compress(&encoded));
    assert_eq!(r.unwrap_err(), PatchError::InvalidCommands);
}

#[test]
fn empty_other_round_trips() {
    let base = b"something".to_vec();
    let other: Vec<u8> = Vec::new();
    let bytes = create_patch(&base, &other, 4, 3).unwrap();
    let out = apply_container(&base, &bytes).unwrap();
    assert_eq!(out, other);
}
