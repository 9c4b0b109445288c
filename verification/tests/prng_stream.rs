use grafpe::prng::{CipherKind, Prng};
use openssl::symm::{Cipher, Crypter, Mode};

#[test]
fn fetch_bit() {
    // checks that the results from the prng generate the same output as
    // its internal block cipher
    let key = hex::decode("01230123012301230123012301230123").unwrap();
    let iv = hex::decode("00001111222233330000111122223333").unwrap();

    let dummy_plaintext = [0u8; 16];
    let cipher = Cipher::aes_128_ctr();
    let mut ciphertext: Vec<u8> = vec![0; dummy_plaintext.len() + cipher.block_size()];

    let mut crypter = Crypter::new(cipher, Mode::Encrypt, &key, Some(&iv)).unwrap();

    let mut prng = Prng::from_cipher(CipherKind::Ctr, &key, &iv);

    for _ in 0..10 {
        let mut prng_buffer: Vec<u8> = vec![0; dummy_plaintext.len()];

        crypter.update(&dummy_plaintext, &mut ciphertext).unwrap();

        for i in 0..prng_buffer.len() * 8 {
            prng_buffer[i / 8] |= (prng.fetch_bit() as u8) << (i % 8);
        }

        assert_eq!(prng_buffer[..], ciphertext[..prng_buffer.len()]);
    }
}

#[test]
fn test_fetch_bit_eq_feed_bytes() {
    let key = hex::decode("01230123012301230123012301230123").unwrap();
    let iv = hex::decode("00001111222233330000111122223333").unwrap();

    let mut prng = Prng::from_cipher(CipherKind::Ctr, &key, &iv);
    let mut prng2 = Prng::from_cipher(CipherKind::Ctr, &key, &iv);

    let mut buffer = vec![0u8; 1015];
    prng.feed_bytes(&mut buffer);

    let mut buffer2 = vec![0u8; 1015];

    for i in 0..buffer2.len() * 8 {
        buffer2[i / 8] |= (prng2.fetch_bit() as u8) << (i % 8);
    }

    assert_eq!(buffer, buffer2);
}
