//! Framing of encrypted messages: the nonce that the message was sealed
//! with, followed by the ciphertext.
use vstd::prelude::*;
use vstd::slice::*;

verus! {

/// Length in bytes of the nonce that leads a sealed message.
pub const NONCE_LENGTH: usize = 24;

/// The sealed message of a nonce and a ciphertext.
pub open spec fn sealed(nonce: Seq<u8>, ciphertext: Seq<u8>) -> Seq<u8> {
    nonce + ciphertext
}

/// Frames a ciphertext behind the nonce it was sealed with.
pub fn seal(nonce: &[u8], ciphertext: &[u8]) -> (r: Vec<u8>)
    requires
        nonce@.len() == NONCE_LENGTH,
    ensures
        r@ == sealed(nonce@, ciphertext@),
{
    let mut r = slice_to_vec(nonce);
    let mut c = slice_to_vec(ciphertext);
    r.append(&mut c);
    r
}

/// Splits a sealed message into its nonce and its ciphertext.
pub fn unseal(message: &[u8]) -> (r: (Vec<u8>, Vec<u8>))
    requires
        message@.len() >= NONCE_LENGTH,
    ensures
        r.0@ == message@.take(NONCE_LENGTH as int),
        r.1@ == message@.skip(NONCE_LENGTH as int),
{
    let nonce = slice_to_vec(slice_subrange(message, 0, NONCE_LENGTH));
    let ciphertext = slice_to_vec(slice_subrange(message, NONCE_LENGTH, message.len()));
    proof {
        assert(message@.subrange(0, NONCE_LENGTH as int) =~= message@.take(NONCE_LENGTH as int));
        assert(message@.subrange(NONCE_LENGTH as int, message@.len() as int) =~= message@.skip(
            NONCE_LENGTH as int,
        ));
    }
    (nonce, ciphertext)
}

/// Splitting a sealed message gives back the nonce and the ciphertext it was
/// sealed from.
pub proof fn lemma_unseal_seal(nonce: Seq<u8>, ciphertext: Seq<u8>)
    requires
        nonce.len() == NONCE_LENGTH,
    ensures
        sealed(nonce, ciphertext).len() >= NONCE_LENGTH,
        sealed(nonce, ciphertext).take(NONCE_LENGTH as int) == nonce,
        sealed(nonce, ciphertext).skip(NONCE_LENGTH as int) == ciphertext,
{
    assert(sealed(nonce, ciphertext).take(NONCE_LENGTH as int) =~= nonce);
    assert(sealed(nonce, ciphertext).skip(NONCE_LENGTH as int) =~= ciphertext);
}

} // verus!
