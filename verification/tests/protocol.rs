//! Wire-format bytes, the signature laws, and the asset-id allocator.

use fedcompute::ids::AssetId;
use fedcompute::ids::AssetIdAllocator;
use fedcompute::ids::SiteId;
use fedcompute::model::AssetData;
use fedcompute::protocol::Msg;
use fedcompute::protocol::SignedMsg;

#[test]
fn request_encoding_is_tag_then_id() {
    let m = Msg::AssetDataRequest { asset_id: AssetId(0x01020304) };
    assert_eq!(m.canonical_bytes(), vec![0u8, 1, 2, 3, 4]);
}

#[test]
fn data_encoding_is_tag_id_len_payload() {
    let m = Msg::AssetData {
        asset_id: AssetId(5),
        asset_data: AssetData { bits: 0x0102030405060708 },
    };
    assert_eq!(
        m.canonical_bytes(),
        vec![1u8, 0, 0, 0, 5, 0, 0, 0, 0, 0, 0, 0, 8, 1, 2, 3, 4, 5, 6, 7, 8],
    );
}

#[test]
fn distinct_messages_encode_distinctly() {
    let m1 = Msg::AssetDataRequest { asset_id: AssetId(1) };
    let m2 = Msg::AssetDataRequest { asset_id: AssetId(2) };
    let m3 = Msg::AssetData { asset_id: AssetId(1), asset_data: AssetData { bits: 0 } };
    assert_ne!(m1.canonical_bytes(), m2.canonical_bytes());
    assert_ne!(m1.canonical_bytes(), m3.canonical_bytes());
}

// Signature law: a signed message verifies under the key that signed it.
#[test]
fn sign_then_verify_succeeds() {
    let secret = vec![7u8; 32];
    let signed = (Msg::AssetDataRequest { asset_id: AssetId(1) }).sign(&secret);
    assert!(signed.verify());
    assert_eq!(*signed.sender(), signed.sender_public_key);
}

// Signature law: verification under any other key fails.
#[test]
fn verify_under_wrong_key_fails() {
    let secret = vec![7u8; 32];
    let other = vec![8u8; 32];
    let signed = (Msg::AssetDataRequest { asset_id: AssetId(1) }).sign(&secret);
    let other_sender = (Msg::AssetDataRequest { asset_id: AssetId(1) }).sign(&other)
        .sender_public_key;
    let forged = SignedMsg {
        sender_public_key: other_sender,
        signature: signed.signature,
        msg: signed.msg,
    };
    assert!(!forged.verify());
}

// Signature law: any change to the payload after signing fails verification.
#[test]
fn mutated_payload_fails_verification() {
    let secret = vec![7u8; 32];
    let signed = (Msg::AssetData { asset_id: AssetId(1), asset_data: AssetData { bits: 4 } })
        .sign(&secret);
    let flipped_id = SignedMsg {
        sender_public_key: signed.sender_public_key,
        signature: signed.signature.clone(),
        msg: Msg::AssetData { asset_id: AssetId(2), asset_data: AssetData { bits: 4 } },
    };
    assert!(!flipped_id.verify());
    // a single-bit change in the payload bits
    let flipped_bit = SignedMsg {
        sender_public_key: signed.sender_public_key,
        signature: signed.signature,
        msg: Msg::AssetData { asset_id: AssetId(1), asset_data: AssetData { bits: 5 } },
    };
    assert!(!flipped_bit.verify());
}

#[test]
fn signing_is_deterministic() {
    let secret = vec![7u8; 32];
    let m = Msg::AssetDataRequest { asset_id: AssetId(1) };
    let s1 = m.sign(&secret);
    let s2 = m.sign(&secret);
    assert_eq!(s1.signature, s2.signature);
    assert_eq!(s1.sender_public_key, s2.sender_public_key);
}

#[test]
fn distinct_secrets_give_distinct_site_ids() {
    let a = (Msg::AssetDataRequest { asset_id: AssetId(1) }).sign(&vec![1u8; 32]);
    let b = (Msg::AssetDataRequest { asset_id: AssetId(1) }).sign(&vec![2u8; 32]);
    assert_ne!(a.sender_public_key, b.sender_public_key);
}

#[test]
fn site_id_equality_is_over_key_bytes() {
    let a = SiteId::new([1; 32]);
    let b = SiteId::new([1; 32]);
    let c = SiteId::new([2; 32]);
    assert_eq!(a, b);
    assert_ne!(a, c);
    assert_eq!(a.key_bytes(), &[1u8; 32]);
}

#[test]
fn allocator_counts_up_and_reuses_freed_ids() {
    let mut alloc = AssetIdAllocator::new();
    assert_eq!(alloc.allocate(), Ok(AssetId(0)));
    assert_eq!(alloc.allocate(), Ok(AssetId(1)));
    assert_eq!(alloc.allocate(), Ok(AssetId(2)));
    // a reclaimed index is reissued before the counter advances
    alloc.free(AssetId(1));
    assert_eq!(alloc.allocate(), Ok(AssetId(1)));
    assert_eq!(alloc.allocate(), Ok(AssetId(3)));
    // an id this allocator never minted is not reissued
    alloc.free(AssetId(100));
    assert_eq!(alloc.allocate(), Ok(AssetId(4)));
    // double free of the same id is ignored
    alloc.free(AssetId(0));
    alloc.free(AssetId(0));
    assert_eq!(alloc.allocate(), Ok(AssetId(0)));
    assert_eq!(alloc.allocate(), Ok(AssetId(5)));
}
