use lethe::crypto::{onetime_decrypt, onetime_encrypt};
use lethe::{CryptIo, KhfIO, MemIo, SeekFrom};

const BLOCK_SIZE: usize = 4096;
const KEY_SIZE: usize = 32;

fn some_key(seed: u8) -> [u8; KEY_SIZE] {
    let mut key = [0u8; KEY_SIZE];
    for (i, b) in key.iter_mut().enumerate() {
        *b = seed.wrapping_mul(31).wrapping_add(i as u8);
    }
    key
}

#[test]
fn crypt_it_works() {
    let key = some_key(7);

    let mut cryptio = CryptIo::new(MemIo::new(), key);

    cryptio.write(&[b'a'; 4 * BLOCK_SIZE]);

    let mut buf = vec![0; 4 * BLOCK_SIZE];
    cryptio.seek(SeekFrom::Start(0)).unwrap();
    assert_eq!(cryptio.read(&mut buf), 4 * BLOCK_SIZE);

    assert_eq!(&buf[..], &[b'a'; 4 * BLOCK_SIZE][..]);
}

#[test]
fn crypt_stores_ciphertext() {
    let key = some_key(3);
    let mut cryptio: KhfIO = CryptIo::new(MemIo::new(), key);
    cryptio.write(&[0u8; 64]);
    let stored = cryptio.into_inner().into_inner();
    assert_eq!(stored.len(), 64);
    assert_ne!(stored, vec![0u8; 64]);
    assert_eq!(stored, onetime_encrypt(&key, &[0u8; 64]));
}

#[test]
fn onetime_round_trip_and_keys_differ() {
    let k1 = some_key(1);
    let k2 = some_key(2);
    let data: Vec<u8> = (0..100u8).collect();
    let c1 = onetime_encrypt(&k1, &data);
    let c2 = onetime_encrypt(&k2, &data);
    assert_eq!(c1.len(), data.len());
    assert_ne!(c1, data);
    assert_ne!(c1, c2);
    assert_eq!(onetime_decrypt(&k1, &c1), data);
    assert_ne!(onetime_decrypt(&k2, &c1), data);
}

#[test]
fn onetime_encrypt_is_a_prefix_stream() {
    let k = some_key(9);
    let data: Vec<u8> = (0..50u8).collect();
    let whole = onetime_encrypt(&k, &data);
    let part = onetime_encrypt(&k, &data[..17]);
    assert_eq!(&whole[..17], &part[..]);
}

#[test]
fn seal_then_unseal_gives_the_blob_back() {
    let key = some_key(5);
    let blob: Vec<u8> = (0..77u8).collect();
    let sealed = CryptIo::seal(&key, &blob);
    assert_eq!(sealed.len(), blob.len());
    assert_ne!(sealed, blob);
    assert_eq!(sealed, onetime_encrypt(&key, &blob));
    assert_eq!(CryptIo::unseal(&key, sealed), blob);
}
