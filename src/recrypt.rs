use crate::blockcrypt::{decrypt_blocks, keys_cover, rotated, touched, touches, written, BlockCryptIo};
use crate::crypto::Key;
use crate::error::Error;
use crate::keys::KeyTable;
use crate::memio::{MemIo, SeekFrom};
use vstd::prelude::*;

verus! {

/// Tells whether `t` has a key for every block that a range of `n` bytes from `pos` touches.
pub fn check_touched_keys(pos: usize, n: usize, bs: usize, t: &KeyTable) -> (r: bool)
    requires
        bs > 0,
        pos + n + bs <= usize::MAX,
    ensures
        r == forall|c: u64| #[trigger] touched(pos as int, n as int, bs as int).contains(c) ==> t.key_map().contains_key(c),
{
    if n == 0 {
        return true;
    }
    let first = pos / bs;
    let mut b: usize = first;
    proof {
        vstd::arithmetic::div_mod::lemma_fundamental_div_mod(pos as int, bs as int);
        assert(first * bs <= pos) by (nonlinear_arith)
            requires
                pos == bs * (pos / bs) + pos % bs,
                first == pos / bs,
                pos % bs >= 0,
        ;
        assert(pos < (first + 1) * bs) by (nonlinear_arith)
            requires
                pos == bs * (pos / bs) + pos % bs,
                first == pos / bs,
                pos % bs < bs,
        ;
    }
    while b * bs < pos + n
        invariant
            bs > 0,
            n > 0,
            pos + n + bs <= usize::MAX,
            first * bs <= pos < (first + 1) * bs,
            first <= b,
            b * bs <= pos + n + bs,
            forall|c: u64| first <= (c as int) < b ==> #[trigger] t.key_map().contains_key(c),
        decreases pos + n + bs - b * bs,
    {
        if t.derive(b as u64).is_none() {
            proof {
                assert(touches(pos as int, n as int, bs as int, b as int)) by {
                    assert((b + 1) * bs >= (first + 1) * bs) by (nonlinear_arith)
                        requires
                            b >= first,
                            bs > 0,
                    ;
                }
                assert(touched(pos as int, n as int, bs as int).contains(b as u64));
            }
            return false;
        }
        proof {
            assert((b + 1) * bs == b * bs + bs) by (nonlinear_arith);
            assert(b <= b * bs) by (nonlinear_arith)
                requires
                    bs > 0,
                    b >= 0,
            ;
        }
        b = b + 1;
    }
    proof {
        assert forall|c: u64| #[trigger] touched(pos as int, n as int, bs as int).contains(c) implies t.key_map().contains_key(c) by {
            let ci = c as int;
            if ci < first {
                assert((ci + 1) * bs <= first * bs) by (nonlinear_arith)
                    requires
                        ci + 1 <= first,
                        bs > 0,
                ;
            }
            if ci >= b {
                assert(ci * bs >= b * bs) by (nonlinear_arith)
                    requires
                        ci >= b,
                        bs > 0,
                ;
            }
        }
    }
    true
}

/// The keys of `curr`, with those of the blocks in `t` taken from `next`.
pub open spec fn mixed_keys(curr: Map<u64, Key>, next: Map<u64, Key>, t: Set<u64>) -> Map<u64, Key> {
    Map::new(
        |c: u64| curr.contains_key(c),
        |c: u64|
            if t.contains(c) {
                next[c]
            } else {
                curr[c]
            },
    )
}

/// A plaintext stream that reads blocks under a current key table and writes them under the
/// keys of a next table, which a consolidation has already prepared. Neither table changes:
/// reads and the read half of a partial-block write decrypt under the current table, and
/// writes encrypt under the next one.
pub struct BlockRecryptIo<const BLK_SZ: usize> {
    io: MemIo,
    curr: KeyTable,
    next: KeyTable,
}

impl<const BLK_SZ: usize> BlockRecryptIo<BLK_SZ> {
    /// The ciphertext that the underlying stream holds.
    pub closed spec fn ciphertext(&self) -> Seq<u8> {
        self.io.contents()
    }

    /// The current position.
    pub closed spec fn position(&self) -> nat {
        self.io.position()
    }

    /// The keys of the current table.
    pub closed spec fn curr_keys(&self) -> Map<u64, Key> {
        self.curr.key_map()
    }

    /// The blocks marked rotated in the current table.
    pub closed spec fn curr_dirty(&self) -> Set<u64> {
        self.curr.dirty_ids()
    }

    /// The keys of the next table.
    pub closed spec fn next_keys(&self) -> Map<u64, Key> {
        self.next.key_map()
    }

    /// The blocks marked rotated in the next table.
    pub closed spec fn next_dirty(&self) -> Set<u64> {
        self.next.dirty_ids()
    }

    /// The plaintext under the current table.
    pub open spec fn plaintext(&self) -> Seq<u8> {
        decrypt_blocks(self.ciphertext(), self.curr_keys(), BLK_SZ as nat)
    }

    pub closed spec fn wf(&self) -> bool {
        &&& BLK_SZ > 0
        &&& self.curr.wf()
        &&& self.next.wf()
        &&& keys_cover(self.io.contents().len(), self.curr.key_map(), BLK_SZ as nat)
    }

    /// Wraps a ciphertext stream, the key table its blocks are encrypted under, and the key
    /// table to encrypt them under from now on.
    pub fn new(io: MemIo, curr_kms: KeyTable, next_kms: KeyTable) -> (r: Self)
        requires
            BLK_SZ > 0,
            curr_kms.wf(),
            next_kms.wf(),
            keys_cover(io.contents().len(), curr_kms.key_map(), BLK_SZ as nat),
        ensures
            r.wf(),
            r.ciphertext() == io.contents(),
            r.position() == io.position(),
            r.curr_keys() == curr_kms.key_map(),
            r.curr_dirty() == curr_kms.dirty_ids(),
            r.next_keys() == next_kms.key_map(),
            r.next_dirty() == next_kms.dirty_ids(),
    {
        BlockRecryptIo { io, curr: curr_kms, next: next_kms }
    }

    /// Gives back the ciphertext stream, the current table and the next table.
    pub fn into_parts(self) -> (r: (MemIo, KeyTable, KeyTable))
        requires
            self.wf(),
        ensures
            r.0.contents() == self.ciphertext(),
            r.0.position() == self.position(),
            r.1.wf(),
            r.1.key_map() == self.curr_keys(),
            r.1.dirty_ids() == self.curr_dirty(),
            r.2.wf(),
            r.2.key_map() == self.next_keys(),
            r.2.dirty_ids() == self.next_dirty(),
            keys_cover(r.0.contents().len(), r.1.key_map(), BLK_SZ as nat),
    {
        (self.io, self.curr, self.next)
    }

    /// Moves the position.
    pub fn seek(&mut self, from: SeekFrom) -> (r: Result<u64, Error>)
        requires
            old(self).wf(),
        ensures
            final(self).wf(),
            final(self).ciphertext() == old(self).ciphertext(),
            final(self).curr_keys() == old(self).curr_keys(),
            final(self).curr_dirty() == old(self).curr_dirty(),
            final(self).next_keys() == old(self).next_keys(),
            final(self).next_dirty() == old(self).next_dirty(),
            ({
                let t = crate::memio::seek_target(
                    from,
                    old(self).ciphertext().len() as int,
                    old(self).position() as int,
                );
                match r {
                    Ok(p) => 0 <= t <= usize::MAX && p == t && final(self).position() == t,
                    Err(e) => !(0 <= t <= usize::MAX) && e == Error::Io && final(self).position()
                        == old(self).position(),
                }
            }),
    {
        self.io.seek(from)
    }

    /// Reads plaintext under the current table from the position into `buf`, as many bytes as
    /// fit and as the stream holds, and moves past them.
    pub fn read(&mut self, buf: &mut Vec<u8>) -> (r: usize)
        requires
            old(self).wf(),
        ensures
            final(self).wf(),
            final(self).ciphertext() == old(self).ciphertext(),
            final(self).curr_keys() == old(self).curr_keys(),
            final(self).curr_dirty() == old(self).curr_dirty(),
            final(self).next_keys() == old(self).next_keys(),
            final(self).next_dirty() == old(self).next_dirty(),
            r == if old(self).position() >= old(self).plaintext().len() {
                0
            } else {
                vstd::math::min(old(buf)@.len() as int, old(self).plaintext().len() - old(self).position())
            },
            final(buf)@.len() == old(buf)@.len(),
            forall|k: int| 0 <= k < r ==> final(buf)@[k] == old(self).plaintext()[old(self).position() + k],
            forall|k: int| r <= k < old(buf)@.len() ==> final(buf)@[k] == old(buf)@[k],
            final(self).position() == old(self).position() + r,
    {
        let mut io = MemIo::new();
        std::mem::swap(&mut io, &mut self.io);
        let mut curr = KeyTable::new();
        std::mem::swap(&mut curr, &mut self.curr);
        let mut b = BlockCryptIo::<BLK_SZ>::new(io, curr);
        let n = b.read(buf);
        let (io, curr) = b.into_parts();
        self.io = io;
        self.curr = curr;
        n
    }

    /// Writes `buf` as plaintext at the position and moves past it: every block the write
    /// re-encrypts (as `BlockCryptIo::write` counts them) is decrypted under the current
    /// table, has `buf` laid over it, and is encrypted under the next table's key for it.
    /// Neither table changes. Fails with `Khf`, writing nothing, when either table has no key
    /// for such a block.
    pub fn write(&mut self, buf: &[u8]) -> (r: Result<usize, Error>)
        requires
            old(self).wf(),
            old(self).position() + buf@.len() + BLK_SZ <= usize::MAX,
        ensures
            final(self).wf(),
            final(self).curr_keys() == old(self).curr_keys(),
            final(self).curr_dirty() == old(self).curr_dirty(),
            final(self).next_keys() == old(self).next_keys(),
            final(self).next_dirty() == old(self).next_dirty(),
            ({
                let pos = old(self).position() as int;
                let t = rotated(pos, old(self).ciphertext().len() as int, buf@.len() as int, BLK_SZ as int);
                &&& r is Err <==> !(forall|c: u64| #[trigger] t.contains(c) ==> old(self).curr_keys().contains_key(c)
                    && old(self).next_keys().contains_key(c))
                &&& r is Err ==> r == Err::<usize, Error>(Error::Khf) && final(self).ciphertext()
                    == old(self).ciphertext() && final(self).position() == old(self).position()
                &&& r is Ok ==> {
                    &&& r == Ok::<usize, Error>(buf.len())
                    &&& final(self).position() == pos + buf@.len()
                    &&& decrypt_blocks(
                        final(self).ciphertext(),
                        mixed_keys(old(self).curr_keys(), old(self).next_keys(), t),
                        BLK_SZ as nat,
                    ) == written(old(self).plaintext(), pos, buf@)
                }
            }),
    {
        let pos = self.io.pos();
        let len = self.io.len();
        let n = buf.len();
        let ghost t = rotated(pos as int, len as int, n as int, BLK_SZ as int);
        if n > 0 {
            let start = if pos <= len { pos } else { len };
            let span = pos + n - start;
            proof {
                assert(t == touched(start as int, span as int, BLK_SZ as int));
                assert(t == rotated(old(self).position() as int, old(self).ciphertext().len() as int, buf@.len() as int, BLK_SZ as int));
            }
            let in_next = check_touched_keys(start, span, BLK_SZ, &self.next);
            let in_curr = check_touched_keys(start, span, BLK_SZ, &self.curr);
            if !in_next || !in_curr {
                proof {
                    if !in_next {
                        let c = choose|c: u64| #[trigger] t.contains(c) && !self.next.key_map().contains_key(c);
                        assert(t.contains(c) && !old(self).next_keys().contains_key(c));
                    } else {
                        let c = choose|c: u64| #[trigger] t.contains(c) && !self.curr.key_map().contains_key(c);
                        assert(t.contains(c) && !old(self).curr_keys().contains_key(c));
                    }
                }
                return Err(Error::Khf);
            }
        } else {
            assert(t =~= Set::<u64>::empty());
        }
        let work = self.curr.duplicate();
        let mut io = MemIo::new();
        std::mem::swap(&mut io, &mut self.io);
        let mut b = BlockCryptIo::<BLK_SZ>::new(io, work);
        assert(b.plaintext().len() == len);
        let _ = b.write_ext(buf, Some(&self.next));
        let ghost keys1 = b.keys();
        let (io, _) = b.into_parts();
        self.io = io;
        proof {
            let m = mixed_keys(old(self).curr_keys(), old(self).next_keys(), t);
            assert forall|c: u64| #[trigger] keys1.contains_key(c) == m.contains_key(c) && (keys1.contains_key(c)
                ==> keys1[c] == m[c]) by {
                if !t.contains(c) {
                    assert(keys1.remove_keys(t).contains_key(c) == old(self).curr_keys().remove_keys(t).contains_key(c));
                    if keys1.contains_key(c) {
                        assert(keys1.remove_keys(t)[c] == old(self).curr_keys().remove_keys(t)[c]);
                    }
                }
            }
            assert(keys1 =~= m);
            assert(keys1.dom() =~= old(self).curr_keys().dom());
        }
        Ok(n)
    }
}

} // verus!
