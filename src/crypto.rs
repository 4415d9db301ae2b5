use ctr::cipher::{KeyIvInit, StreamCipher};
use rand::RngCore;
use vstd::prelude::*;

verus! {

/// The size in bytes of every key.
pub const KEY_SIZE: usize = 32;

/// A block key, a blob key or the master key.
pub type Key = [u8; KEY_SIZE];

/// The keystream byte at position `i` that AES-256 in counter mode produces under `key` with an
/// all-zero initial counter block.
pub uninterp spec fn aes256_ctr_keystream(key: Seq<u8>, i: int) -> u8;

/// `data` combined with the keystream of `key` from its first byte on.
pub open spec fn apply_keystream(key: Seq<u8>, data: Seq<u8>) -> Seq<u8> {
    Seq::new(data.len(), |i: int| data[i] ^ aes256_ctr_keystream(key, i))
}

/// Relies on `ctr::Ctr128BE<aes::Aes256>::apply_keystream`, which XORs the data with the
/// keystream that the key and the initial counter block determine.
#[verifier::external_body]
fn aes256_ctr(key: &Key, data: &[u8]) -> (r: Vec<u8>)
    ensures
        r@.len() == data@.len(),
        forall|i: int| 0 <= i < data@.len() ==> r@[i] == data@[i] ^ aes256_ctr_keystream(key@, i),
{
    let mut out = data.to_vec();
    let mut cipher = ctr::Ctr128BE::<aes::Aes256>::new(key.into(), &[0u8; 16].into());
    cipher.apply_keystream(&mut out);
    out
}

/// Relies on `rand::thread_rng().fill_bytes`: a key drawn from a cryptographically secure
/// generator; nothing is known of its bytes.
#[verifier::external_body]
pub(crate) fn random_key() -> (r: Key) {
    let mut key = [0u8; KEY_SIZE];
    rand::thread_rng().fill_bytes(&mut key);
    key
}

/// Applying the keystream twice gives the data back.
pub proof fn lemma_keystream_involution(key: Seq<u8>, data: Seq<u8>)
    ensures
        apply_keystream(key, apply_keystream(key, data)) == data,
{
    assert forall|i: int| 0 <= i < data.len() implies #[trigger] apply_keystream(
        key,
        apply_keystream(key, data),
    )[i] == data[i] by {
        lemma_xor_twice(data[i], aes256_ctr_keystream(key, i));
    }
    assert(apply_keystream(key, apply_keystream(key, data)) =~= data);
}

pub proof fn lemma_xor_twice(a: u8, b: u8)
    ensures
        (a ^ b) ^ b == a,
{
    assert((a ^ b) ^ b == a) by (bit_vector);
}

/// Encrypts `data` under `key` in one shot; the output has the length of the input.
pub fn onetime_encrypt(key: &Key, data: &[u8]) -> (r: Vec<u8>)
    ensures
        r@ == apply_keystream(key@, data@),
{
    let r = aes256_ctr(key, data);
    assert(r@ =~= apply_keystream(key@, data@));
    r
}

/// Decrypts `data` under `key` in one shot: the inverse of `onetime_encrypt` under the same key.
pub fn onetime_decrypt(key: &Key, data: &[u8]) -> (r: Vec<u8>)
    ensures
        r@ == apply_keystream(key@, data@),
        forall|p: Seq<u8>| data@ == #[trigger] apply_keystream(key@, p) ==> r@ == p,
{
    proof {
        assert forall|p: Seq<u8>| data@ == #[trigger] apply_keystream(key@, p) implies apply_keystream(
            key@,
            data@,
        ) == p by {
            lemma_keystream_involution(key@, p);
        }
    }
    let r = aes256_ctr(key, data);
    assert(r@ =~= apply_keystream(key@, data@));
    r
}

} // verus!
