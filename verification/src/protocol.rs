//! The wire protocol: message variants, their canonical byte encoding, and
//! the signing and verification envelope.

use vstd::prelude::*;

use ed25519_dalek::Verifier;

use crate::ids::SiteId;
use crate::ids::AssetId;
use crate::model::AssetData;

verus! {

/// A message communicated between sites. The requester of an
/// `AssetDataRequest` is implicit in the envelope's sender.
#[derive(Clone, Copy, PartialEq, Eq, Structural, Debug)]
pub enum Msg {
    AssetDataRequest { asset_id: AssetId },
    AssetData { asset_id: AssetId, asset_data: AssetData },
}

/// The four big-endian bytes of a 32-bit integer.
pub open spec fn be_bytes_u32(x: u32) -> Seq<u8> {
    seq![
        ((x >> 24) & 0xff) as u8,
        ((x >> 16) & 0xff) as u8,
        ((x >> 8) & 0xff) as u8,
        (x & 0xff) as u8,
    ]
}

/// The eight big-endian bytes of a 64-bit integer.
pub open spec fn be_bytes_u64(x: u64) -> Seq<u8> {
    seq![
        ((x >> 56) & 0xff) as u8,
        ((x >> 48) & 0xff) as u8,
        ((x >> 40) & 0xff) as u8,
        ((x >> 32) & 0xff) as u8,
        ((x >> 24) & 0xff) as u8,
        ((x >> 16) & 0xff) as u8,
        ((x >> 8) & 0xff) as u8,
        (x & 0xff) as u8,
    ]
}

/// The canonical encoding of a message: a 1-byte variant tag, the asset id
/// as four big-endian bytes, and for asset data an 8-byte big-endian length
/// prefix followed by the payload bytes. Deterministic, covers every field,
/// and signs no uninitialised padding.
pub open spec fn spec_encode_msg(m: Msg) -> Seq<u8> {
    match m {
        Msg::AssetDataRequest { asset_id } => seq![0u8] + be_bytes_u32(asset_id.0),
        Msg::AssetData { asset_id, asset_data } => seq![1u8] + be_bytes_u32(asset_id.0)
            + be_bytes_u64(8) + be_bytes_u64(asset_data.bits),
    }
}

fn push_be_u32(v: &mut Vec<u8>, x: u32)
    ensures
        final(v)@ == old(v)@ + be_bytes_u32(x),
{
    proof {
        assert((x >> 24) & 0xff < 256 && (x >> 16) & 0xff < 256 && (x >> 8) & 0xff < 256 && x
            & 0xff < 256) by (bit_vector);
    }
    v.push(((x >> 24) & 0xff) as u8);
    v.push(((x >> 16) & 0xff) as u8);
    v.push(((x >> 8) & 0xff) as u8);
    v.push((x & 0xff) as u8);
    proof {
        assert(v@ =~= old(v)@ + be_bytes_u32(x));
    }
}

pub(crate) fn push_be_u64(v: &mut Vec<u8>, x: u64)
    ensures
        final(v)@ == old(v)@ + be_bytes_u64(x),
{
    proof {
        assert((x >> 56) & 0xff < 256 && (x >> 48) & 0xff < 256 && (x >> 40) & 0xff < 256 && (x
            >> 32) & 0xff < 256 && (x >> 24) & 0xff < 256 && (x >> 16) & 0xff < 256 && (x >> 8)
            & 0xff < 256 && x & 0xff < 256) by (bit_vector);
    }
    v.push(((x >> 56) & 0xff) as u8);
    v.push(((x >> 48) & 0xff) as u8);
    v.push(((x >> 40) & 0xff) as u8);
    v.push(((x >> 32) & 0xff) as u8);
    v.push(((x >> 24) & 0xff) as u8);
    v.push(((x >> 16) & 0xff) as u8);
    v.push(((x >> 8) & 0xff) as u8);
    v.push((x & 0xff) as u8);
    proof {
        assert(v@ =~= old(v)@ + be_bytes_u64(x));
    }
}

impl Msg {
    /// The canonical byte encoding, the bytes that are signed.
    pub fn canonical_bytes(&self) -> (r: Vec<u8>)
        ensures
            r@ == spec_encode_msg(*self),
    {
        let mut v: Vec<u8> = Vec::new();
        match self {
            Msg::AssetDataRequest { asset_id } => {
                v.push(0u8);
                proof {
                    assert(v@ =~= Seq::<u8>::empty() + seq![0u8]);
                }
                push_be_u32(&mut v, asset_id.0);
                proof {
                    assert(v@ =~= spec_encode_msg(*self));
                }
            },
            Msg::AssetData { asset_id, asset_data } => {
                v.push(1u8);
                proof {
                    assert(v@ =~= Seq::<u8>::empty() + seq![1u8]);
                }
                push_be_u32(&mut v, asset_id.0);
                push_be_u64(&mut v, 8);
                push_be_u64(&mut v, asset_data.bits);
                proof {
                    assert(v@ =~= spec_encode_msg(*self));
                }
            },
        }
        v
    }
}

/// The canonical encoding is collision-free over the tag-and-fields
/// structure: two messages with the same encoding are the same message.
pub proof fn lemma_encoding_injective(m1: Msg, m2: Msg)
    requires
        spec_encode_msg(m1) == spec_encode_msg(m2),
    ensures
        m1 == m2,
{
    let e1 = spec_encode_msg(m1);
    let e2 = spec_encode_msg(m2);
    match (m1, m2) {
        (Msg::AssetDataRequest { asset_id: a1 }, Msg::AssetDataRequest { asset_id: a2 }) => {
            let x = a1.0;
            let y = a2.0;
            assert(e1[1] == ((x >> 24) & 0xff) as u8 && e1[2] == ((x >> 16) & 0xff) as u8 && e1[3]
                == ((x >> 8) & 0xff) as u8 && e1[4] == (x & 0xff) as u8);
            assert(e2[1] == ((y >> 24) & 0xff) as u8 && e2[2] == ((y >> 16) & 0xff) as u8 && e2[3]
                == ((y >> 8) & 0xff) as u8 && e2[4] == (y & 0xff) as u8);
            assert((((x >> 24) & 0xff) as u8 == ((y >> 24) & 0xff) as u8 && ((x >> 16) & 0xff) as u8
                == ((y >> 16) & 0xff) as u8 && ((x >> 8) & 0xff) as u8 == ((y >> 8) & 0xff) as u8
                && (x & 0xff) as u8 == (y & 0xff) as u8) ==> x == y) by (bit_vector);
        },
        (
            Msg::AssetData { asset_id: a1, asset_data: d1 },
            Msg::AssetData { asset_id: a2, asset_data: d2 },
        ) => {
            let x = a1.0;
            let y = a2.0;
            let b1 = d1.bits;
            let b2 = d2.bits;
            assert(e1 == seq![1u8] + be_bytes_u32(x) + be_bytes_u64(8) + be_bytes_u64(b1));
            assert(e2 == seq![1u8] + be_bytes_u32(y) + be_bytes_u64(8) + be_bytes_u64(b2));
            assert(e1[1] == ((x >> 24) & 0xff) as u8 && e1[2] == ((x >> 16) & 0xff) as u8 && e1[3]
                == ((x >> 8) & 0xff) as u8 && e1[4] == (x & 0xff) as u8);
            assert(e2[1] == ((y >> 24) & 0xff) as u8 && e2[2] == ((y >> 16) & 0xff) as u8 && e2[3]
                == ((y >> 8) & 0xff) as u8 && e2[4] == (y & 0xff) as u8);
            assert((((x >> 24) & 0xff) as u8 == ((y >> 24) & 0xff) as u8 && ((x >> 16) & 0xff) as u8
                == ((y >> 16) & 0xff) as u8 && ((x >> 8) & 0xff) as u8 == ((y >> 8) & 0xff) as u8
                && (x & 0xff) as u8 == (y & 0xff) as u8) ==> x == y) by (bit_vector);
            assert(e1[13] == ((b1 >> 56) & 0xff) as u8 && e1[14] == ((b1 >> 48) & 0xff) as u8
                && e1[15] == ((b1 >> 40) & 0xff) as u8 && e1[16] == ((b1 >> 32) & 0xff) as u8
                && e1[17] == ((b1 >> 24) & 0xff) as u8 && e1[18] == ((b1 >> 16) & 0xff) as u8
                && e1[19] == ((b1 >> 8) & 0xff) as u8 && e1[20] == (b1 & 0xff) as u8);
            assert(e2[13] == ((b2 >> 56) & 0xff) as u8 && e2[14] == ((b2 >> 48) & 0xff) as u8
                && e2[15] == ((b2 >> 40) & 0xff) as u8 && e2[16] == ((b2 >> 32) & 0xff) as u8
                && e2[17] == ((b2 >> 24) & 0xff) as u8 && e2[18] == ((b2 >> 16) & 0xff) as u8
                && e2[19] == ((b2 >> 8) & 0xff) as u8 && e2[20] == (b2 & 0xff) as u8);
            assert((((b1 >> 56) & 0xff) as u8 == ((b2 >> 56) & 0xff) as u8 && ((b1 >> 48)
                & 0xff) as u8 == ((b2 >> 48) & 0xff) as u8 && ((b1 >> 40) & 0xff) as u8 == ((b2
                >> 40) & 0xff) as u8 && ((b1 >> 32) & 0xff) as u8 == ((b2 >> 32) & 0xff) as u8 && ((
            b1 >> 24) & 0xff) as u8 == ((b2 >> 24) & 0xff) as u8 && ((b1 >> 16) & 0xff) as u8 == ((
            b2 >> 16) & 0xff) as u8 && ((b1 >> 8) & 0xff) as u8 == ((b2 >> 8) & 0xff) as u8 && (b1
                & 0xff) as u8 == (b2 & 0xff) as u8) ==> b1 == b2) by (bit_vector);
        },
        (Msg::AssetDataRequest { .. }, Msg::AssetData { .. }) => {
            assert(e1[0] == 0 && e2[0] == 1);
        },
        (Msg::AssetData { .. }, Msg::AssetDataRequest { .. }) => {
            assert(e1[0] == 1 && e2[0] == 0);
        },
    }
}

/// The Ed25519 public key derived from a 32-byte secret seed.
pub uninterp spec fn public_key_of(secret: Seq<u8>) -> Seq<u8>;

/// The Ed25519 signature produced by signing `msg` with the key derived
/// from `secret`; Ed25519 signing is deterministic, so this is a function
/// of the two arguments.
pub uninterp spec fn signature_of(secret: Seq<u8>, msg: Seq<u8>) -> Seq<u8>;

/// Whether `sig` is accepted as a signature on `msg` under the public key
/// bytes `pk` (false whenever `pk` or `sig` do not parse).
pub uninterp spec fn sig_verifies(pk: Seq<u8>, msg: Seq<u8>, sig: Seq<u8>) -> bool;

/// Relies on ed25519_dalek: `SecretKey::from_bytes` accepts exactly 32
/// bytes; `PublicKey::from(&SecretKey)` derives the matching public key;
/// `ExpandedSecretKey::sign` is the deterministic RFC 8032 signing
/// operation, and a signature it produces under the derived public key is
/// accepted by `PublicKey::verify` on the same message.
#[verifier::external_body]
fn sign_bytes(secret: &Vec<u8>, msg: &Vec<u8>) -> (r: Vec<u8>)
    requires
        secret@.len() == 32,
    ensures
        r@.len() == 64,
        r@ == signature_of(secret@, msg@),
        sig_verifies(public_key_of(secret@), msg@, r@),
{
    let sk = ed25519_dalek::SecretKey::from_bytes(secret.as_slice()).unwrap();
    let pk = ed25519_dalek::PublicKey::from(&sk);
    let exp = ed25519_dalek::ExpandedSecretKey::from(&sk);
    let sig = exp.sign(msg.as_slice(), &pk);
    sig.to_bytes().to_vec()
}

/// Relies on ed25519_dalek: `SecretKey::from_bytes` accepts exactly 32
/// bytes and `PublicKey::from(&SecretKey)` derives the matching 32-byte
/// public key.
#[verifier::external_body]
pub(crate) fn derive_public_key(secret: &Vec<u8>) -> (r: SiteId)
    requires
        secret@.len() == 32,
    ensures
        r@ == public_key_of(secret@),
{
    let sk = ed25519_dalek::SecretKey::from_bytes(secret.as_slice()).unwrap();
    let pk = ed25519_dalek::PublicKey::from(&sk);
    SiteId::new(pk.to_bytes())
}

/// Relies on ed25519_dalek: `PublicKey::from_bytes` parses or rejects the
/// key bytes, `Signature::from_bytes` parses or rejects the signature
/// bytes, and `PublicKey::verify` deterministically accepts or rejects the
/// triple.
#[verifier::external_body]
fn verify_bytes(pk: &SiteId, msg: &Vec<u8>, sig: &Vec<u8>) -> (r: bool)
    ensures
        r == sig_verifies(pk@, msg@, sig@),
{
    let pk = match ed25519_dalek::PublicKey::from_bytes(pk.key_bytes()) {
        Ok(k) => k,
        Err(_) => {
            return false;
        },
    };
    let sig = match ed25519_dalek::Signature::from_bytes(sig.as_slice()) {
        Ok(s) => s,
        Err(_) => {
            return false;
        },
    };
    pk.verify(msg.as_slice(), &sig).is_ok()
}

/// A signed envelope: the sender's public key, a signature covering the
/// canonical encoding of the payload, and the payload itself.
#[derive(Debug)]
pub struct SignedMsg {
    pub sender_public_key: SiteId,
    pub signature: Vec<u8>,
    pub msg: Msg,
}

impl Msg {
    /// Wrap this message in a signed envelope. The signature law: the
    /// envelope this produces verifies under the sender key it carries.
    pub fn sign(self, secret: &Vec<u8>) -> (r: SignedMsg)
        requires
            secret@.len() == 32,
        ensures
            r.msg == self,
            r.sender_public_key@ == public_key_of(secret@),
            r.signature@ == signature_of(secret@, spec_encode_msg(self)),
            sig_verifies(r.sender_public_key@, spec_encode_msg(r.msg), r.signature@),
    {
        let bytes = self.canonical_bytes();
        let signature = sign_bytes(secret, &bytes);
        let sender_public_key = derive_public_key(secret);
        SignedMsg { sender_public_key, signature, msg: self }
    }
}

impl SignedMsg {
    /// Check the envelope: the signature must cover the canonical encoding
    /// of the payload under the carried sender key.
    pub fn verify(&self) -> (r: bool)
        ensures
            r == sig_verifies(self.sender_public_key@, spec_encode_msg(self.msg), self.signature@),
    {
        let bytes = self.msg.canonical_bytes();
        verify_bytes(&self.sender_public_key, &bytes, &self.signature)
    }

    /// The claimed sender: the key in the envelope.
    pub fn sender(&self) -> (r: &SiteId)
        ensures
            *r == self.sender_public_key,
    {
        &self.sender_public_key
    }
}

} // verus!
