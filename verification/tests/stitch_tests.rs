use stitchbot::stitch::{
    broadcast_stitch, decode, handle_envelope, make_envelope, StitchRequest, STITCH_MSG_TAG,
};

fn secret_key() -> Vec<u8> {
    vec![1u8; 32]
}

fn sample_request() -> StitchRequest {
    let weak = b"weakblockhash".to_vec();
    let tips = vec![b"tipone".to_vec(), b"tiptwo".to_vec(), b"tipthree".to_vec()];
    StitchRequest::new(&weak, &tips, 12_345, 1_700_000_000, &secret_key()).expect("valid key")
}

#[test]
fn new_request_verifies_with_its_own_key() {
    let req = sample_request();
    assert_eq!(req.weak_block, b"weakblockhash".to_vec());
    assert_eq!(req.tip_hashes.len(), 3);
    assert_eq!(req.reward_sompi, 12_345);
    assert_eq!(req.expiry, 1_700_000_030);
    assert_eq!(req.signature.len(), 64);
    assert_eq!(req.pubkey.len(), 33);
    assert!(req.verify());
}

#[test]
fn new_rejects_unusable_secret_key() {
    let weak = b"w".to_vec();
    let tips = vec![b"t".to_vec()];
    assert!(StitchRequest::new(&weak, &tips, 1, 0, &vec![0u8; 32]).is_none());
    assert!(StitchRequest::new(&weak, &tips, 1, 0, &vec![1u8; 31]).is_none());
    assert!(StitchRequest::new(&weak, &tips, 1, 0, &Vec::new()).is_none());
}

#[test]
fn tampered_weak_block_fails_verification() {
    let mut req = sample_request();
    req.weak_block[0] ^= 1;
    assert!(!req.verify());
}

#[test]
fn tampered_tip_list_fails_verification() {
    let mut req = sample_request();
    req.tip_hashes.pop();
    assert!(!req.verify());
    let mut req2 = sample_request();
    req2.tip_hashes[1][0] ^= 1;
    assert!(!req2.verify());
}

#[test]
fn tampered_reward_fails_verification() {
    let mut req = sample_request();
    req.reward_sompi += 1;
    assert!(!req.verify());
}

#[test]
fn tampered_expiry_fails_verification() {
    let mut req = sample_request();
    req.expiry -= 1;
    assert!(!req.verify());
}

#[test]
fn corrupted_signature_fails_verification() {
    let mut req = sample_request();
    req.signature[10] ^= 0xff;
    assert!(!req.verify());
    let mut req2 = sample_request();
    req2.signature = vec![0u8; 64];
    assert!(!req2.verify());
    let mut req3 = sample_request();
    req3.signature.truncate(10);
    assert!(!req3.verify());
}

#[test]
fn corrupted_key_fails_verification() {
    let mut req = sample_request();
    req.pubkey[1] ^= 0xff;
    assert!(!req.verify());
    let mut req2 = sample_request();
    req2.pubkey = vec![7u8; 33];
    assert!(!req2.verify());
}

#[test]
fn wire_roundtrip_is_field_identical_and_still_verifies() {
    let req = sample_request();
    let wire = req.encode();
    let back = decode(&wire).expect("roundtrip decodes");
    assert_eq!(back.weak_block, req.weak_block);
    assert_eq!(back.tip_hashes, req.tip_hashes);
    assert_eq!(back.reward_sompi, req.reward_sompi);
    assert_eq!(back.expiry, req.expiry);
    assert_eq!(back.signature, req.signature);
    assert_eq!(back.pubkey, req.pubkey);
    assert!(back.verify());
}

#[test]
fn decode_rejects_malformed_bytes() {
    assert!(decode(&Vec::new()).is_none());
    assert!(decode(&vec![0u8; 7]).is_none());
    // a huge claimed length cannot fit
    let mut bad = vec![0xffu8; 8];
    bad.extend_from_slice(b"short");
    assert!(decode(&bad).is_none());
    // a tip count that cannot fit in the remaining bytes
    let mut bad_count = vec![0u8; 8];
    bad_count.extend_from_slice(&[0xffu8; 8]);
    assert!(decode(&bad_count).is_none());
    // truncating a valid message breaks it
    let req = sample_request();
    let mut wire = req.encode();
    wire.pop();
    assert!(decode(&wire).is_none());
    // trailing garbage breaks it too
    let mut wire2 = req.encode();
    wire2.push(0);
    assert!(decode(&wire2).is_none());
}

#[test]
fn envelope_accepted_before_expiry_only() {
    let req = sample_request();
    let env = make_envelope(&req);
    assert_eq!(env[0], STITCH_MSG_TAG);
    let got = handle_envelope(&env, req.expiry - 1).expect("valid and unexpired");
    assert_eq!(got.weak_block, req.weak_block);
    assert_eq!(got.reward_sompi, req.reward_sompi);
    // expired by the receiver's clock: dropped
    assert!(handle_envelope(&env, req.expiry).is_none());
}

#[test]
fn envelope_with_wrong_tag_or_bad_payload_dropped() {
    let req = sample_request();
    let mut env = make_envelope(&req);
    env[0] = 0x01;
    assert!(handle_envelope(&env, 0).is_none());
    assert!(handle_envelope(&Vec::new(), 0).is_none());
    // tampered payload no longer verifies
    let mut env2 = make_envelope(&req);
    let len = env2.len();
    env2[len - 1] ^= 1;
    assert!(handle_envelope(&env2, 0).is_none());
}

#[test]
fn broadcast_stitch_builds_a_valid_envelope() {
    let weak = b"weak".to_vec();
    let tips = vec![b"t1".to_vec(), b"t2".to_vec()];
    let env = broadcast_stitch(&weak, &tips, 777, 5000, &secret_key()).expect("valid key");
    assert_eq!(env[0], STITCH_MSG_TAG);
    let req = handle_envelope(&env, 5029).expect("fresh envelope accepted");
    assert_eq!(req.weak_block, weak);
    assert_eq!(req.tip_hashes, tips);
    assert_eq!(req.reward_sompi, 777);
    assert_eq!(req.expiry, 5030);
    assert!(broadcast_stitch(&weak, &tips, 777, 5000, &vec![0u8; 32]).is_none());
}

#[test]
fn le64_fields_roundtrip() {
    let mut buf: Vec<u8> = Vec::new();
    stitchbot::bytes::push_le64(&mut buf, 0x0102_0304_0506_0708);
    assert_eq!(buf, vec![8, 7, 6, 5, 4, 3, 2, 1]);
    assert_eq!(stitchbot::bytes::read_le64(&buf, 0), 0x0102_0304_0506_0708);
}
