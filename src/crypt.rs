use crate::crypto::{apply_keystream, onetime_decrypt, onetime_encrypt, Key};
use crate::error::Error;
use crate::memio::{overwrite, seek_target, zero_pad, MemIo, SeekFrom};
use vstd::prelude::*;

verus! {

/// A stream that encrypts whatever is written, and decrypts whatever is read, in one shot
/// under a single fixed key; made for writing and reading a blob whole, from its start.
pub struct CryptIo {
    key: Key,
    io: MemIo,
}

/// The stream that holds a persisted key table blob.
pub type KhfIO = CryptIo;

impl CryptIo {
    /// The key.
    pub closed spec fn key(&self) -> Key {
        self.key
    }

    /// The underlying ciphertext stream.
    pub closed spec fn inner(&self) -> MemIo {
        self.io
    }

    /// Wraps a ciphertext stream and its key.
    pub fn new(io: MemIo, key: Key) -> (r: Self)
        ensures
            r.key() == key,
            r.inner() == io,
    {
        CryptIo { key, io }
    }

    /// Gives back the ciphertext stream.
    pub fn into_inner(self) -> (r: MemIo)
        ensures
            r == self.inner(),
    {
        self.io
    }

    /// Moves the position of the underlying stream.
    pub fn seek(&mut self, from: SeekFrom) -> (r: Result<u64, Error>)
        ensures
            final(self).key() == old(self).key(),
            final(self).inner().contents() == old(self).inner().contents(),
            ({
                let t = seek_target(
                    from,
                    old(self).inner().contents().len() as int,
                    old(self).inner().position() as int,
                );
                match r {
                    Ok(p) => 0 <= t <= usize::MAX && p == t && final(self).inner().position() == t,
                    Err(e) => !(0 <= t <= usize::MAX) && e == Error::Io && final(self).inner().position()
                        == old(self).inner().position(),
                }
            }),
    {
        self.io.seek(from)
    }

    /// Reads up to `buf.len()` ciphertext bytes from the position and fills `buf` with their
    /// one-shot decryption, the bytes past those read taken as zero ciphertext; returns how
    /// many it read.
    pub fn read(&mut self, buf: &mut Vec<u8>) -> (r: usize)
        ensures
            final(self).key() == old(self).key(),
            final(self).inner().contents() == old(self).inner().contents(),
            final(self).inner().position() == old(self).inner().position() + r,
            r == if old(self).inner().position() >= old(self).inner().contents().len() {
                0
            } else {
                vstd::math::min(
                    old(buf)@.len() as int,
                    old(self).inner().contents().len() - old(self).inner().position(),
                )
            },
            final(buf)@ == apply_keystream(
                old(self).key()@,
                Seq::new(
                    old(buf)@.len(),
                    |i: int|
                        if i < r {
                            old(self).inner().contents()[old(self).inner().position() + i]
                        } else {
                            0u8
                        },
                ),
            ),
    {
        let ghost p = self.io.position();
        let mut enc: Vec<u8> = vec![0u8; buf.len()];
        let ghost e0 = enc@;
        assert(forall|k: int| 0 <= k < e0.len() ==> e0[k] == 0u8);
        let n = self.io.read(&mut enc);
        assert(forall|k: int| n <= k < enc@.len() ==> enc@[k] == e0[k]);
        let dec = onetime_decrypt(&self.key, enc.as_slice());
        assert(enc@ =~= Seq::new(
            old(buf)@.len(),
            |i: int|
                if i < n {
                    old(self).io.contents()[p + i]
                } else {
                    0u8
                },
        ));
        *buf = dec;
        n
    }

    /// Encrypts `buf` in one shot and writes the ciphertext at the position; returns its length.
    pub fn write(&mut self, buf: &[u8]) -> (r: usize)
        requires
            old(self).inner().position() + buf@.len() <= usize::MAX,
        ensures
            r == buf@.len(),
            final(self).key() == old(self).key(),
            final(self).inner().contents() == overwrite(
                zero_pad(old(self).inner().contents(), old(self).inner().position() as int),
                old(self).inner().position() as int,
                apply_keystream(old(self).key()@, buf@),
            ),
            final(self).inner().position() == old(self).inner().position() + r,
    {
        let enc = onetime_encrypt(&self.key, buf);
        self.io.write(enc.as_slice())
    }

    /// Encrypts a whole blob under `key` by writing it through a fresh stream.
    pub fn seal(key: &Key, blob: &[u8]) -> (r: Vec<u8>)
        ensures
            r@ == apply_keystream(key@, blob@),
    {
        let len = blob.len();
        assert(len == blob@.len());
        let mut io = CryptIo::new(MemIo::new(), *key);
        let _ = io.write(blob);
        let r = io.into_inner().into_inner();
        assert(zero_pad(Seq::<u8>::empty(), 0) == Seq::<u8>::empty());
        assert(r@ =~= apply_keystream(key@, blob@));
        r
    }

    /// Decrypts a whole blob under `key` by reading it through a stream over it.
    pub fn unseal(key: &Key, blob: Vec<u8>) -> (r: Vec<u8>)
        ensures
            r@ == apply_keystream(key@, blob@),
    {
        let ghost b = blob@;
        let n = blob.len();
        let mut io = CryptIo::new(MemIo::from_vec(blob), *key);
        let mut buf: Vec<u8> = vec![0u8; n];
        let _ = io.read(&mut buf);
        assert(Seq::new(
            n as nat,
            |i: int|
                if i < n {
                    b[i]
                } else {
                    0u8
                },
        ) =~= b);
        buf
    }
}

} // verus!
