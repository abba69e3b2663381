//! Where keys and node ids come from: SHA-256.

use crate::address;
use crate::address::Address;
use crate::close_nodes::{Key, NodeId};
use sha2::{Digest, Sha256};
use vstd::prelude::*;

verus! {

/// The SHA-256 digest of some bytes.
pub uninterp spec fn sha256(data: Seq<u8>) -> Seq<u8>;

/// `sha2::Sha256::digest`, as an array: the digest depends on the data alone.
/// Nothing is said of what it is.
#[verifier::external_body]
fn digest(data: &[u8]) -> (digest: [u8; 32])
    ensures
        digest@ == sha256(data@),
{
    Sha256::digest(data).into()
}

/// Compute the SHA-256 digest of arbitrary bytes.
pub fn hash_bytes(data: &[u8]) -> (hash: [u8; 32])
    ensures
        hash@ == sha256(data@),
{
    digest(data)
}

/// Kademlia key for a stored value: a value is stored under its hash.
pub fn key_for_value(value: &[u8]) -> (key: Key)
    ensures
        key@ == sha256(value@),
{
    hash_bytes(value)
}

/// Kademlia node ID for a network address.
///
/// It is the hash of the canonical text form of IP and port, e.g.
/// `127.0.0.1:8000`. For a version 6 address that text is given as `v6`.
pub fn node_id_from_address(address: Address, v6: &str) -> (id: NodeId)
    ensures
        id@ == sha256(vstd::utf8::encode_utf8(address::address_text(address, v6@))),
{
    let text: String = address.text(v6);
    hash_bytes(text.as_str().as_bytes())
}

} // verus!
