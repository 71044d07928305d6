use ddcp::proto::seal::{seal, unseal, NONCE_LENGTH};

#[test]
fn seal_then_unseal() {
    let nonce: Vec<u8> = (0..NONCE_LENGTH as u8).collect();
    let ciphertext = b"secret bytes".to_vec();
    let sealed = seal(&nonce, &ciphertext);
    assert_eq!(sealed.len(), NONCE_LENGTH + ciphertext.len());
    assert_eq!(&sealed[..NONCE_LENGTH], nonce.as_slice());
    let (n, c) = unseal(&sealed);
    assert_eq!(n, nonce);
    assert_eq!(c, ciphertext);
}

#[test]
fn unseal_nonce_only() {
    let (n, c) = unseal(&[3u8; 24]);
    assert_eq!(n, vec![3u8; 24]);
    assert!(c.is_empty());
}
