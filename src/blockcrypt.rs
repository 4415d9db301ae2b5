use crate::crypto::{aes256_ctr_keystream, lemma_xor_twice, onetime_decrypt, onetime_encrypt, Key};
use crate::keys::KeyTable;
use crate::memio::{copy_range, overwrite, MemIo, SeekFrom};
use vstd::arithmetic::div_mod::{lemma_fundamental_div_mod, lemma_fundamental_div_mod_converse};
use vstd::prelude::*;

verus! {

/// The plaintext of a block-encrypted stream: byte `i` is ciphertext byte `i` combined with the
/// keystream of its block's key, at its offset within the block.
pub open spec fn decrypt_blocks(cipher: Seq<u8>, keys: Map<u64, Key>, bs: nat) -> Seq<u8> {
    Seq::new(
        cipher.len(),
        |i: int| cipher[i] ^ aes256_ctr_keystream(keys[(i / bs as int) as u64]@, i % bs as int),
    )
}

/// Every block that holds a byte of a stream of `len` bytes has a key.
pub open spec fn keys_cover(len: nat, keys: Map<u64, Key>, bs: nat) -> bool {
    forall|b: u64| (b as int) * (bs as int) < len ==> #[trigger] keys.contains_key(b)
}

/// Block `b` holds a byte of the range of `n` bytes from `pos`.
pub open spec fn touches(pos: int, n: int, bs: int, b: int) -> bool {
    n > 0 && b * bs < pos + n && pos < (b + 1) * bs
}

/// The blocks that a range of `n` bytes from `pos` touches.
pub open spec fn touched(pos: int, n: int, bs: int) -> Set<u64> {
    Set::new(|b: u64| touches(pos, n, bs, b as int))
}

/// The plaintext after writing `buf` at `pos`: a position past the end is first reached with
/// zero bytes; an empty `buf` changes nothing.
pub open spec fn written(p: Seq<u8>, pos: int, buf: Seq<u8>) -> Seq<u8> {
    if buf.len() == 0 {
        p
    } else {
        overwrite(crate::memio::zero_pad(p, pos), pos, buf)
    }
}

/// The blocks that writing `n` bytes at `pos` over `len` bytes re-encrypts: those touched from
/// the write's start, or from the end where the write begins past it.
pub open spec fn rotated(pos: int, len: int, n: int, bs: int) -> Set<u64> {
    if n == 0 {
        Set::empty()
    } else if pos <= len {
        touched(pos, n, bs)
    } else {
        touched(len, pos + n - len, bs)
    }
}

/// `i` lies in block `b` at offset `i - b * bs`.
pub proof fn lemma_in_block(i: int, b: int, bs: int)
    requires
        bs > 0,
        b * bs <= i < b * bs + bs,
    ensures
        i / bs == b,
        i % bs == i - b * bs,
{
    lemma_fundamental_div_mod_converse(i, bs, b, i - b * bs);
}

/// Two blocks that share a byte are the same block.
pub proof fn lemma_same_block(b: int, c: int, bs: int, i: int)
    requires
        bs > 0,
        b * bs <= i < b * bs + bs,
        c * bs <= i < c * bs + bs,
    ensures
        b == c,
{
    lemma_in_block(i, b, bs);
    lemma_in_block(i, c, bs);
}

/// Laying `a` over `s` at `pos` and then `c` right after it is laying `a + c` at `pos`.
pub proof fn lemma_overwrite_twice(s: Seq<u8>, pos: int, a: Seq<u8>, c: Seq<u8>)
    requires
        0 <= pos <= s.len(),
    ensures
        overwrite(overwrite(s, pos, a), pos + a.len(), c) == overwrite(s, pos, a + c),
{
    assert(overwrite(overwrite(s, pos, a), pos + a.len(), c) =~= overwrite(s, pos, a + c));
}

/// Tells whether every block that holds a byte of a stream of `len` bytes has a key in `kms`.
pub fn check_keys_cover(len: usize, kms: &KeyTable, bs: usize) -> (r: bool)
    requires
        bs > 0,
    ensures
        r == keys_cover(len as nat, kms.key_map(), bs as nat),
{
    let mut b: u64 = 0;
    let mut at: usize = 0;
    while at < len
        invariant
            bs > 0,
            at == (b as int) * (bs as int),
            forall|c: u64| (c as int) < (b as int) ==> #[trigger] kms.key_map().contains_key(c),
        decreases len - at,
    {
        if kms.derive(b).is_none() {
            return false;
        }
        proof {
            assert((b as int) <= (at as int)) by (nonlinear_arith)
                requires
                    at == (b as int) * (bs as int),
                    bs > 0,
                    b >= 0,
            ;
        }
        if len - at <= bs {
            proof {
                assert forall|c: u64| (c as int) * (bs as int) < len implies #[trigger] kms.key_map().contains_key(c) by {
                    if c as int > b as int {
                        assert((c as int) * (bs as int) >= (b as int + 1) * (bs as int)) by (nonlinear_arith)
                            requires
                                c as int >= b as int + 1,
                                bs > 0,
                        ;
                        assert((b as int + 1) * (bs as int) == at + bs) by (nonlinear_arith)
                            requires
                                at == (b as int) * (bs as int),
                        ;
                    }
                }
            }
            return true;
        }
        at = at + bs;
        b = b + 1;
        proof {
            assert(at == (b as int) * (bs as int)) by (nonlinear_arith)
                requires
                    at == (b as int - 1) * (bs as int) + bs,
            ;
        }
    }
    proof {
        assert forall|c: u64| (c as int) * (bs as int) < len implies #[trigger] kms.key_map().contains_key(c) by {
            if c as int >= b as int {
                assert((c as int) * (bs as int) >= (b as int) * (bs as int)) by (nonlinear_arith)
                    requires
                        c as int >= b as int,
                        bs > 0,
                ;
            }
        }
    }
    true
}

/// A plaintext stream over a ciphertext stream, encrypted block by block, each block of
/// `BLK_SZ` bytes under its own key from a key table; writing a block rotates its key.
pub struct BlockCryptIo<const BLK_SZ: usize> {
    io: MemIo,
    kms: KeyTable,
}

/// Another name for `BlockCryptIo`.
pub type BlockCryptIO<const BLK_SZ: usize> = BlockCryptIo<BLK_SZ>;

impl<const BLK_SZ: usize> BlockCryptIo<BLK_SZ> {
    /// The plaintext that the stream holds.
    pub open spec fn plaintext(&self) -> Seq<u8> {
        decrypt_blocks(self.ciphertext(), self.keys(), BLK_SZ as nat)
    }

    /// The ciphertext that the underlying stream holds.
    pub closed spec fn ciphertext(&self) -> Seq<u8> {
        self.io.contents()
    }

    /// The key of each block.
    pub closed spec fn keys(&self) -> Map<u64, Key> {
        self.kms.key_map()
    }

    /// The blocks whose keys were rotated since the key table's last commit.
    pub closed spec fn dirty(&self) -> Set<u64> {
        self.kms.dirty_ids()
    }

    /// The current position.
    pub closed spec fn position(&self) -> nat {
        self.io.position()
    }

    pub closed spec fn wf(&self) -> bool {
        &&& BLK_SZ > 0
        &&& self.kms.wf()
        &&& keys_cover(self.io.contents().len(), self.kms.key_map(), BLK_SZ as nat)
    }

    /// Wraps a ciphertext stream and the key table of its blocks.
    pub fn new(io: MemIo, kms: KeyTable) -> (r: Self)
        requires
            BLK_SZ > 0,
            kms.wf(),
            keys_cover(io.contents().len(), kms.key_map(), BLK_SZ as nat),
        ensures
            r.wf(),
            r.ciphertext() == io.contents(),
            r.keys() == kms.key_map(),
            r.dirty() == kms.dirty_ids(),
            r.position() == io.position(),
    {
        BlockCryptIo { io, kms }
    }

    /// Gives back the ciphertext stream and the key table.
    pub fn into_parts(self) -> (r: (MemIo, KeyTable))
        requires
            self.wf(),
        ensures
            r.0.contents() == self.ciphertext(),
            r.0.position() == self.position(),
            r.1.wf(),
            r.1.key_map() == self.keys(),
            r.1.dirty_ids() == self.dirty(),
            keys_cover(r.0.contents().len(), r.1.key_map(), BLK_SZ as nat),
    {
        (self.io, self.kms)
    }

    /// Returns the current position.
    pub fn pos(&self) -> (r: usize)
        requires
            self.wf(),
        ensures
            r == self.position(),
            BLK_SZ > 0,
    {
        self.io.pos()
    }

    /// Moves the position of the plaintext stream; it is that of the ciphertext stream.
    pub fn seek(&mut self, from: SeekFrom) -> (r: Result<u64, crate::error::Error>)
        requires
            old(self).wf(),
        ensures
            final(self).wf(),
            final(self).ciphertext() == old(self).ciphertext(),
            final(self).keys() == old(self).keys(),
            final(self).dirty() == old(self).dirty(),
            ({
                let t = crate::memio::seek_target(
                    from,
                    old(self).ciphertext().len() as int,
                    old(self).position() as int,
                );
                match r {
                    Ok(p) => 0 <= t <= usize::MAX && p == t && final(self).position() == t,
                    Err(e) => !(0 <= t <= usize::MAX) && e == crate::error::Error::Io
                        && final(self).position() == old(self).position(),
                }
            }),
    {
        self.io.seek(from)
    }

    /// Reads plaintext from the position into `buf`, as many bytes as fit and as the stream
    /// holds, and moves past them; at or past the end it reads nothing and stays.
    pub fn read(&mut self, buf: &mut Vec<u8>) -> (r: usize)
        requires
            old(self).wf(),
        ensures
            final(self).wf(),
            final(self).ciphertext() == old(self).ciphertext(),
            final(self).keys() == old(self).keys(),
            final(self).dirty() == old(self).dirty(),
            r == if old(self).position() >= old(self).plaintext().len() {
                0
            } else {
                vstd::math::min(
                    old(buf)@.len() as int,
                    old(self).plaintext().len() - old(self).position(),
                )
            },
            final(buf)@.len() == old(buf)@.len(),
            forall|k: int|
                0 <= k < r ==> final(buf)@[k] == old(self).plaintext()[old(self).position() + k],
            forall|k: int| r <= k < old(buf)@.len() ==> final(buf)@[k] == old(buf)@[k],
            final(self).position() == old(self).position() + r,
    {
        let pos = self.io.pos();
        let len = self.io.len();
        if pos >= len {
            return 0;
        }
        let n = if buf.len() < len - pos {
            buf.len()
        } else {
            len - pos
        };
        let ghost plain = self.plaintext();
        let mut total: usize = 0;
        while total < n
            invariant
                self.wf(),
                self.io.contents() == old(self).io.contents(),
                self.kms == old(self).kms,
                plain == self.plaintext(),
                len == self.io.contents().len(),
                pos + n <= len,
                n <= buf@.len(),
                total <= n,
                buf@.len() == old(buf)@.len(),
                forall|k: int| 0 <= k < total ==> buf@[k] == plain[pos + k],
                forall|k: int| total <= k < buf@.len() ==> buf@[k] == old(buf)@[k],
            decreases n - total,
        {
            let off = pos + total;
            let b = off / BLK_SZ;
            let start = off % BLK_SZ;
            proof {
                lemma_fundamental_div_mod(off as int, BLK_SZ as int);
                assert(b * BLK_SZ >= 0) by (nonlinear_arith)
                    requires
                        b >= 0,
                        BLK_SZ > 0,
                ;
                assert(b * BLK_SZ == off - start) by (nonlinear_arith)
                    requires
                        off == BLK_SZ * (off / BLK_SZ) + off % BLK_SZ,
                        b == off / BLK_SZ,
                        start == off % BLK_SZ,
                ;
            }
            let begin = off - start;
            let chunk = if BLK_SZ - start < n - total {
                BLK_SZ - start
            } else {
                n - total
            };
            assert(self.kms.key_map().contains_key(b as u64));
            let mut tmp = vec![0u8; start + chunk];
            let _ = self.io.seek(SeekFrom::Start(begin as u64));
            let _ = self.io.read(&mut tmp);
            let key = self.kms.derive(b as u64).unwrap();
            let pt = onetime_decrypt(&key, tmp.as_slice());
            let mut j: usize = 0;
            while j < chunk
                invariant
                    j <= chunk,
                    total + chunk <= n,
                    n <= buf@.len(),
                    start + chunk == pt@.len(),
                    start + chunk <= BLK_SZ,
                    buf@.len() == old(buf)@.len(),
                    forall|k: int| 0 <= k < total ==> buf@[k] == plain[pos + k],
                    forall|k: int| total <= k < total + j ==> buf@[k] == pt@[start + k - total],
                    forall|k: int| total + chunk <= k < buf@.len() ==> buf@[k] == old(buf)@[k],
                decreases chunk - j,
            {
                buf[total + j] = pt[start + j];
                j += 1;
            }
            proof {
                assert forall|k: int| total <= k < total + chunk implies buf@[k] == plain[pos + k] by {
                    let i = pos + k;
                    lemma_in_block(i, b as int, BLK_SZ as int);
                    assert(tmp@[start + k - total] == self.io.contents()[i]);
                }
            }
            total = total + chunk;
        }
        let _ = self.io.seek(SeekFrom::Start((pos + n) as u64));
        n
    }

    /// Lays `src` over block `b` of the plaintext from offset `start` on and stores the block
    /// again under a freshly rotated key; the block's bytes past `src` keep their plaintext.
    fn rewrite_block(&mut self, b: usize, start: usize, src: &[u8], next_key: Option<Key>)
        requires
            old(self).wf(),
            0 < src@.len(),
            start + src@.len() <= BLK_SZ,
            b * BLK_SZ + start <= old(self).ciphertext().len(),
            b * BLK_SZ + BLK_SZ <= usize::MAX,
        ensures
            final(self).wf(),
            final(self).plaintext() == overwrite(old(self).plaintext(), b * BLK_SZ + start, src@),
            final(self).keys().dom() == old(self).keys().dom().insert(b as u64),
            forall|c: u64| c != b ==> #[trigger] final(self).keys()[c] == old(self).keys()[c],
            next_key matches Some(k) ==> final(self).keys()[b as u64] == k,
            final(self).dirty() == old(self).dirty().insert(b as u64),
    {
        let ghost plain0 = self.plaintext();
        let ghost keys0 = self.kms.key_map();
        let ghost data0 = self.io.contents();
        let bs = BLK_SZ;
        proof {
            assert(b * bs >= 0) by (nonlinear_arith)
                requires
                    b >= 0,
                    bs > 0,
            ;
        }
        let begin = b * BLK_SZ;
        let cur_len = self.io.len();
        let old_len = if cur_len - begin < BLK_SZ {
            cur_len - begin
        } else {
            BLK_SZ
        };
        let end = start + src.len();
        let new_len = if old_len < end {
            end
        } else {
            old_len
        };
        let old_plain: Vec<u8> = if old_len == 0 || (start == 0 && src.len() == BLK_SZ) {
            Vec::new()
        } else {
            let mut tmp = vec![0u8; old_len];
            let _ = self.io.seek(SeekFrom::Start(begin as u64));
            let _ = self.io.read(&mut tmp);
            assert(self.kms.key_map().contains_key(b as u64));
            let key = self.kms.derive(b as u64).unwrap();
            let pt = onetime_decrypt(&key, tmp.as_slice());
            proof {
                assert forall|k: int| 0 <= k < old_len implies pt@[k] == plain0[begin + k] by {
                    lemma_in_block(begin + k, b as int, bs as int);
                    assert(tmp@[k] == data0[begin + k]);
                }
            }
            pt
        };
        assert(self.io.contents() == data0);
        let mut merged: Vec<u8> = Vec::new();
        let mut j: usize = 0;
        while j < new_len
            invariant
                j <= new_len,
                new_len <= BLK_SZ,
                end == start + src@.len(),
                merged@.len() == j,
                (start == 0 && end >= new_len) || old_plain@.len() == old_len,
                new_len == if old_len < end { end } else { old_len },
                start <= old_len,
                forall|k: int| 0 <= k < old_plain@.len() ==> old_plain@[k] == plain0[begin + k],
                forall|k: int|
                    0 <= k < j ==> #[trigger] merged@[k] == if start <= k < end {
                        src@[k - start]
                    } else {
                        plain0[begin + k]
                    },
            decreases new_len - j,
        {
            if start <= j && j < end {
                merged.push(src[j - start]);
            } else {
                assert(j < old_plain@.len() && old_plain@[j as int] == plain0[begin + j]);
                merged.push(old_plain[j]);
            }
            j += 1;
        }
        let key = match next_key {
            Some(k) => {
                self.kms.set(b as u64, k);
                k
            },
            None => self.kms.update(b as u64),
        };
        let ct = onetime_encrypt(&key, merged.as_slice());
        let _ = self.io.seek(SeekFrom::Start(begin as u64));
        let _ = self.io.write(ct.as_slice());
        proof {
            let data1 = self.io.contents();
            let keys1 = self.kms.key_map();
            let target = overwrite(plain0, begin + start, src@);
            assert(crate::memio::zero_pad(data0, begin as int) == data0);
            assert(data1 == overwrite(data0, begin as int, ct@));
            assert(data1.len() == target.len());
            assert(data1.len() <= usize::MAX);
            assert forall|i: int| 0 <= i < data1.len() implies #[trigger] decrypt_blocks(
                data1,
                keys1,
                bs as nat,
            )[i] == target[i] by {
                lemma_fundamental_div_mod(i, bs as int);
                let c = i / bs as int;
                assert(c * bs <= i < c * bs + bs) by (nonlinear_arith)
                    requires
                        i == bs * (i / bs as int) + i % bs as int,
                        c == i / bs as int,
                        0 <= (i % (bs as int)) < bs,
                ;
                assert(c >= 0) by (nonlinear_arith)
                    requires
                        i >= 0,
                        bs > 0,
                        c == i / bs as int,
                ;
                if begin <= i < begin + new_len {
                    lemma_in_block(i, b as int, bs as int);
                    let k = i - begin;
                    assert(data1[i] == ct@[k]);
                    lemma_xor_twice(merged@[k], aes256_ctr_keystream(key@, k));
                } else {
                    assert(data1[i] == data0[i]);
                    if c == b {
                        assert(i >= begin + bs);
                    }
                    assert(c != b);
                    assert(c * bs <= usize::MAX) by (nonlinear_arith)
                        requires
                            c * bs <= i,
                            (i < data1.len()),
                            data1.len() <= usize::MAX,
                            bs > 0,
                    ;
                    assert((c as u64) != (b as u64));
                    assert(keys1[c as u64] == keys0[c as u64]);
                }
            }
            assert(decrypt_blocks(data1, keys1, bs as nat) =~= target);
            assert forall|c: u64| (c as int) * (bs as int) < data1.len() implies #[trigger] keys1.contains_key(c) by {
                if c != b as u64 {
                    if (c as int) * (bs as int) >= data0.len() {
                        let i = (c as int) * (bs as int);
                        assert(begin <= i < begin + bs) by (nonlinear_arith)
                            requires
                                i >= data0.len(),
                                (i < data1.len()),
                                data1.len() <= begin + bs,
                                data0.len() >= begin,
                        ;
                        assert(i < i + bs);
                        lemma_same_block(b as int, c as int, bs as int, i);
                    }
                }
            }
            assert(keys1.dom() =~= keys0.dom().insert(b as u64));
        }
    }

    /// Writes `buf` as plaintext at the position and moves past it. Every block that the write
    /// touches is re-encrypted under a freshly rotated key, the bytes of a partly written block
    /// that lie outside `buf` keeping their plaintext; the stream grows where `buf` reaches
    /// past its end, and a position past the end is first reached with zero bytes, as a file
    /// grows. An empty `buf` changes nothing.
    pub fn write(&mut self, buf: &[u8]) -> (r: usize)
        requires
            old(self).wf(),
            old(self).position() + buf@.len() + BLK_SZ <= usize::MAX,
        ensures
            final(self).wf(),
            r == buf@.len(),
            final(self).position() == old(self).position() + r,
            final(self).plaintext() == written(old(self).plaintext(), old(self).position() as int, buf@),
            ({
                let t = rotated(old(self).position() as int, old(self).plaintext().len() as int, r as int, BLK_SZ as int);
                &&& final(self).dirty() == old(self).dirty().union(t)
                &&& forall|c: u64| #[trigger] t.contains(c) ==> final(self).keys().contains_key(c)
                &&& final(self).keys().remove_keys(t) == old(self).keys().remove_keys(t)
            }),
    {
        self.write_ext(buf, None)
    }

    /// Writes `buf` as `write` does; where `next` is given, each rotated block takes its key
    /// from `next` instead of a fresh random one.
    pub(crate) fn write_ext(&mut self, buf: &[u8], next: Option<&KeyTable>) -> (r: usize)
        requires
            old(self).wf(),
            old(self).position() + buf@.len() + BLK_SZ <= usize::MAX,
            next matches Some(t) ==> forall|c: u64| #[trigger]
                rotated(old(self).position() as int, old(self).plaintext().len() as int, buf@.len() as int, BLK_SZ as int).contains(c)
                    ==> t.key_map().contains_key(c),
        ensures
            final(self).wf(),
            r == buf@.len(),
            final(self).position() == old(self).position() + r,
            final(self).plaintext() == written(old(self).plaintext(), old(self).position() as int, buf@),
            ({
                let t = rotated(old(self).position() as int, old(self).plaintext().len() as int, r as int, BLK_SZ as int);
                &&& final(self).dirty() == old(self).dirty().union(t)
                &&& forall|c: u64| #[trigger] t.contains(c) ==> final(self).keys().contains_key(c)
                &&& final(self).keys().remove_keys(t) == old(self).keys().remove_keys(t)
                &&& next matches Some(nt) ==> forall|c: u64| #[trigger] t.contains(c) ==> final(self).keys()[c]
                    == nt.key_map()[c]
            }),
    {
        let n = buf.len();
        let ghost p0 = self.plaintext();
        let ghost bs = BLK_SZ as int;
        if n == 0 {
            assert(rotated(self.position() as int, p0.len() as int, 0, bs) =~= Set::<u64>::empty());
            assert(self.dirty().union(Set::<u64>::empty()) =~= self.dirty());
            assert(self.keys().remove_keys(Set::<u64>::empty()) =~= self.keys());
            return 0;
        }
        let pos = self.pos();
        let len = self.io.len();
        assert(p0.len() == len);
        if pos <= len {
            assert(crate::memio::zero_pad(p0, pos as int) == p0);
            assert(rotated(pos as int, len as int, n as int, bs) == touched(pos as int, n as int, bs));
            return self.write_blocks(buf, next);
        }
        let gap = pos - len;
        let mut data: Vec<u8> = vec![0u8; gap];
        assert(data@ =~= Seq::new(gap as nat, |i: int| 0u8));
        let mut tail = copy_range(buf, 0, n);
        assert(tail@ =~= buf@);
        data.append(&mut tail);
        let _ = self.seek(SeekFrom::Start(len as u64));
        assert(self.position() == len);
        assert(data@.len() == pos + n - len);
        assert(rotated(pos as int, len as int, n as int, bs) == touched(len as int, data@.len() as int, bs));
        let _ = self.write_blocks(data.as_slice(), next);
        proof {
            let zp = crate::memio::zero_pad(p0, pos as int);
            assert(overwrite(p0, len as int, data@) =~= overwrite(zp, pos as int, buf@));
        }
        n
    }

    /// Writes `buf` as `write` does; where `next` is given, each touched block takes its key
    /// from `next` instead of a freshly rotated one.
    pub(crate) fn write_blocks(&mut self, buf: &[u8], next: Option<&KeyTable>) -> (r: usize)
        requires
            old(self).wf(),
            old(self).position() + buf@.len() + BLK_SZ <= usize::MAX,
            next matches Some(t) ==> forall|c: u64| #[trigger]
                touched(old(self).position() as int, buf@.len() as int, BLK_SZ as int).contains(c)
                    ==> t.key_map().contains_key(c),
        ensures
            next matches Some(t) ==> old(self).position() <= old(self).plaintext().len() ==> forall|c: u64| #[trigger]
                touched(old(self).position() as int, r as int, BLK_SZ as int).contains(c)
                    ==> final(self).keys()[c] == t.key_map()[c],
            final(self).wf(),
            old(self).position() > old(self).plaintext().len() ==> {
                &&& r == 0
                &&& final(self).plaintext() == old(self).plaintext()
                &&& final(self).keys() == old(self).keys()
                &&& final(self).dirty() == old(self).dirty()
                &&& final(self).position() == old(self).position()
            },
            old(self).position() <= old(self).plaintext().len() ==> r == buf@.len(),
            old(self).position() <= old(self).plaintext().len() ==> final(self).plaintext()
                == overwrite(old(self).plaintext(), old(self).position() as int, buf@),
            old(self).position() <= old(self).plaintext().len() ==> final(self).position()
                == old(self).position() + r,
            old(self).position() <= old(self).plaintext().len() ==> final(self).dirty()
                == old(self).dirty().union(
                touched(old(self).position() as int, r as int, BLK_SZ as int),
            ),
            old(self).position() <= old(self).plaintext().len() ==> forall|c: u64| #[trigger]
                touched(old(self).position() as int, r as int, BLK_SZ as int).contains(c)
                    ==> final(self).keys().contains_key(c),
            old(self).position() <= old(self).plaintext().len() ==> final(self).keys().remove_keys(
                touched(old(self).position() as int, r as int, BLK_SZ as int),
            ) == old(self).keys().remove_keys(
                touched(old(self).position() as int, r as int, BLK_SZ as int),
            ),
    {
        let pos = self.io.pos();
        let len = self.io.len();
        if pos > len {
            return 0;
        }
        let n = buf.len();
        let ghost plain0 = self.plaintext();
        let ghost keys0 = self.keys();
        let ghost dirty0 = self.dirty();
        let ghost bs = BLK_SZ as int;
        let mut total: usize = 0;
        assert(buf@.subrange(0, 0) =~= Seq::<u8>::empty());
        assert(overwrite(plain0, pos as int, Seq::<u8>::empty()) =~= plain0);
        assert(touched(pos as int, 0, bs) =~= Set::<u64>::empty());
        assert(dirty0.union(Set::<u64>::empty()) =~= dirty0);
        while total < n
            invariant
                self.wf(),
                pos + n + BLK_SZ <= usize::MAX,
                n == buf@.len(),
                total <= n,
                pos <= plain0.len(),
                bs == BLK_SZ,
                self.plaintext() == overwrite(plain0, pos as int, buf@.subrange(0, total as int)),
                self.dirty() == dirty0.union(touched(pos as int, total as int, bs)),
                forall|c: u64| #[trigger]
                    touched(pos as int, total as int, bs).contains(c) ==> self.keys().contains_key(c),
                next matches Some(t) ==> forall|c: u64| #[trigger]
                    touched(pos as int, n as int, bs).contains(c) ==> t.key_map().contains_key(c),
                next matches Some(t) ==> forall|c: u64| #[trigger]
                    touched(pos as int, total as int, bs).contains(c) ==> self.keys()[c] == t.key_map()[c],
                forall|c: u64|
                    !touched(pos as int, total as int, bs).contains(c) ==> (
                    #[trigger] self.keys().contains_key(c) == keys0.contains_key(c)
                        && self.keys()[c] == keys0[c]),
            decreases n - total,
        {
            let off = pos + total;
            let b = off / BLK_SZ;
            let start = off % BLK_SZ;
            let chunk = if BLK_SZ - start < n - total {
                BLK_SZ - start
            } else {
                n - total
            };
            proof {
                lemma_fundamental_div_mod(off as int, bs);
                assert(b * bs == off - start) by (nonlinear_arith)
                    requires
                        off == bs * ((off as int) / bs) + (off as int) % bs,
                        b == (off as int) / bs,
                        start == (off as int) % bs,
                ;
            }
            assert(self.ciphertext().len() == self.plaintext().len());
            assert((b + 1) * bs == b * bs + bs) by (nonlinear_arith);
            let src = copy_range(buf, total, total + chunk);
            let ghost keys_mid = self.keys();
            proof {
                assert(touches(pos as int, n as int, bs, b as int));
                assert(touched(pos as int, n as int, bs).contains(b as u64));
            }
            let next_key: Option<Key> = match next {
                Some(t) => t.derive(b as u64),
                None => None,
            };
            self.rewrite_block(b, start, src.as_slice(), next_key);
            proof {
                let a = buf@.subrange(0, total as int);
                lemma_overwrite_twice(plain0, pos as int, a, src@);
                assert(a + src@ =~= buf@.subrange(0, total + chunk));
                let t0 = touched(pos as int, total as int, bs);
                let t1 = touched(pos as int, total + chunk, bs);
                assert forall|c: u64| #[trigger] t1.contains(c) <==> (t0.contains(c) || c == b as u64) by {
                    if c == b as u64 {
                        assert(touches(pos as int, total + chunk, bs, c as int));
                    }
                    if t0.contains(c) {
                        assert(touches(pos as int, total + chunk, bs, c as int));
                    }
                    if t1.contains(c) && !t0.contains(c) {
                        let ci = c as int;
                        assert((ci + 1) * bs == ci * bs + bs) by (nonlinear_arith);
                        let i = if ci * bs > off { ci * bs } else { off as int };
                        assert(ci * bs <= i < ci * bs + bs);
                        lemma_same_block(b as int, ci, bs, i);
                    }
                }
                assert(t1 =~= t0.insert(b as u64));
                assert(self.dirty() =~= dirty0.union(t1));
                assert forall|c: u64| !t1.contains(c) implies (#[trigger] self.keys().contains_key(c)
                    == keys0.contains_key(c) && self.keys()[c] == keys0[c]) by {
                    assert(!t0.contains(c));
                    assert(c != b as u64);
                    assert(self.keys()[c] == keys_mid[c]);
                    assert(self.keys().dom().contains(c) == keys_mid.dom().contains(c));
                }
                if let Some(t) = next {
                    assert forall|c: u64| #[trigger] t1.contains(c) implies self.keys()[c] == t.key_map()[c] by {
                        if c != b as u64 {
                            assert(t0.contains(c));
                            assert(self.keys()[c] == keys_mid[c]);
                        }
                    }
                }
                assert forall|c: u64| #[trigger] t1.contains(c) implies self.keys().contains_key(c) by {
                    if c != b as u64 {
                        assert(t0.contains(c));
                        assert(keys_mid.dom().contains(c));
                    }
                    assert(self.keys().dom().contains(c));
                }
            }
            total = total + chunk;
        }
        let ghost keys_end = self.keys();
        let _ = self.io.seek(SeekFrom::Start((pos + n) as u64));
        assert(self.keys() == keys_end);
        assert(keys0 == old(self).keys());
        assert(plain0 == old(self).plaintext());
        assert(pos == old(self).position());
        assert(dirty0 == old(self).dirty());
        assert(buf@.subrange(0, n as int) =~= buf@);
        assert(self.plaintext() == overwrite(plain0, pos as int, buf@));
        assert(self.position() == pos + n);
        assert(self.dirty() == dirty0.union(touched(pos as int, n as int, bs)));
        assert(forall|c: u64| #[trigger]
            touched(pos as int, n as int, bs).contains(c) ==> self.keys().contains_key(c));
        assert(self.keys().remove_keys(touched(pos as int, n as int, bs)) =~= keys0.remove_keys(
            touched(pos as int, n as int, bs),
        ));
        n
    }
}

} // verus!
