use crate::error::Error;
use vstd::prelude::*;

verus! {

/// Where a seek is counted from.
#[derive(Debug, Clone, Copy, PartialEq, Eq, Structural)]
pub enum SeekFrom {
    /// From the first byte.
    Start(u64),
    /// From the end of the data.
    End(i64),
    /// From the current position.
    Current(i64),
}

/// The position a seek from `from` lands on, over data of length `len` read up to `pos`.
pub open spec fn seek_target(from: SeekFrom, len: int, pos: int) -> int {
    match from {
        SeekFrom::Start(n) => n as int,
        SeekFrom::End(d) => len + d,
        SeekFrom::Current(d) => pos + d,
    }
}

/// `s` with `src` laid over it from `at` on, grown where `src` reaches past its end.
pub open spec fn overwrite(s: Seq<u8>, at: int, src: Seq<u8>) -> Seq<u8> {
    Seq::new(
        if at + src.len() > s.len() {
            (at + src.len()) as nat
        } else {
            s.len()
        },
        |i: int|
            if at <= i < at + src.len() {
                src[i - at]
            } else {
                s[i]
            },
    )
}

/// `s` grown with zero bytes to at least `n` bytes.
pub open spec fn zero_pad(s: Seq<u8>, n: int) -> Seq<u8> {
    if n > s.len() {
        s + Seq::new((n - s.len()) as nat, |i: int| 0u8)
    } else {
        s
    }
}

/// A seekable byte stream held in memory.
pub struct MemIo {
    data: Vec<u8>,
    pos: usize,
}

impl MemIo {
    /// The bytes of the stream.
    pub closed spec fn contents(&self) -> Seq<u8> {
        self.data@
    }

    /// The current position.
    pub closed spec fn position(&self) -> nat {
        self.pos as nat
    }

    /// Creates an empty stream positioned at its start.
    pub fn new() -> (r: Self)
        ensures
            r.contents() == Seq::<u8>::empty(),
            r.position() == 0,
    {
        MemIo { data: Vec::new(), pos: 0 }
    }

    /// Creates a stream over `data`, positioned at its start.
    pub fn from_vec(data: Vec<u8>) -> (r: Self)
        ensures
            r.contents() == data@,
            r.position() == 0,
    {
        MemIo { data, pos: 0 }
    }

    /// Returns the bytes of the stream.
    pub fn into_inner(self) -> (r: Vec<u8>)
        ensures
            r@ == self.contents(),
    {
        self.data
    }

    /// Returns a copy of the bytes of the stream.
    pub fn to_vec(&self) -> (r: Vec<u8>)
        ensures
            r@ == self.contents(),
    {
        self.data.clone()
    }

    /// Returns the number of bytes in the stream.
    pub fn len(&self) -> (r: usize)
        ensures
            r == self.contents().len(),
    {
        self.data.len()
    }

    /// Returns the current position as an index.
    pub fn pos(&self) -> (r: usize)
        ensures
            r == self.position(),
    {
        self.pos
    }

    /// Returns the current position.
    pub fn stream_position(&self) -> (r: u64)
        ensures
            r == self.position(),
    {
        self.pos as u64
    }

    /// Moves the position; fails with `Io`, moving nothing, where the target is negative or
    /// does not fit in memory.
    pub fn seek(&mut self, from: SeekFrom) -> (r: Result<u64, Error>)
        ensures
            final(self).contents() == old(self).contents(),
            ({
                let t = seek_target(from, old(self).contents().len() as int, old(self).position() as int);
                match r {
                    Ok(p) => 0 <= t <= usize::MAX && p == t && final(self).position() == t,
                    Err(e) => !(0 <= t <= usize::MAX) && e == Error::Io && final(self).position()
                        == old(self).position(),
                }
            }),
    {
        let len = self.data.len() as i128;
        let t: i128 = match from {
            SeekFrom::Start(n) => n as i128,
            SeekFrom::End(d) => len + d as i128,
            SeekFrom::Current(d) => self.pos as i128 + d as i128,
        };
        if t < 0 || t > usize::MAX as i128 {
            return Err(Error::Io);
        }
        self.pos = t as usize;
        Ok(t as u64)
    }

    /// Reads from the position into `buf`, as many bytes as fit and as the stream holds, and
    /// moves past them.
    pub fn read(&mut self, buf: &mut Vec<u8>) -> (r: usize)
        ensures
            final(self).contents() == old(self).contents(),
            r == if old(self).position() >= old(self).contents().len() {
                0
            } else {
                vstd::math::min(old(buf)@.len() as int, old(self).contents().len() - old(self).position())
            },
            final(buf)@.len() == old(buf)@.len(),
            forall|k: int|
                0 <= k < r ==> final(buf)@[k] == old(self).contents()[old(self).position() + k],
            forall|k: int| r <= k < old(buf)@.len() ==> final(buf)@[k] == old(buf)@[k],
            final(self).position() == old(self).position() + r,
    {
        if self.pos >= self.data.len() {
            return 0;
        }
        let avail = self.data.len() - self.pos;
        let n = if buf.len() < avail {
            buf.len()
        } else {
            avail
        };
        let p = self.pos;
        let mut j: usize = 0;
        while j < n
            invariant
                j <= n,
                n <= buf@.len(),
                p == self.pos,
                p + n <= self.data@.len(),
                self.data@.len() <= usize::MAX,
                self.data@ == old(self).data@,
                self.pos == old(self).pos,
                buf@.len() == old(buf)@.len(),
                forall|k: int| 0 <= k < j ==> buf@[k] == self.data@[self.pos + k],
                forall|k: int| j <= k < buf@.len() ==> buf@[k] == old(buf)@[k],
            decreases n - j,
        {
            buf[j] = self.data[p + j];
            j += 1;
        }
        self.pos = self.pos + n;
        n
    }

    /// Writes all of `buf` at the position, zero-filling any gap past the end, and moves past it.
    pub fn write(&mut self, buf: &[u8]) -> (r: usize)
        requires
            old(self).position() + buf@.len() <= usize::MAX,
        ensures
            r == buf@.len(),
            final(self).contents() == overwrite(
                zero_pad(old(self).contents(), old(self).position() as int),
                old(self).position() as int,
                buf@,
            ),
            final(self).position() == old(self).position() + r,
    {
        let ghost padded = zero_pad(self.data@, self.pos as int);
        while self.data.len() < self.pos
            invariant
                self.pos == old(self).pos,
                self.data@.len() <= self.pos || self.data@ == old(self).data@,
                old(self).data@.len() <= self.data@.len(),
                self.data@.len() <= padded.len(),
                forall|k: int| 0 <= k < self.data@.len() ==> self.data@[k] == padded[k],
                padded == zero_pad(old(self).data@, self.pos as int),
            decreases self.pos - self.data@.len(),
        {
            self.data.push(0u8);
        }
        assert(self.data@ =~= padded);
        splice(&mut self.data, self.pos, buf);
        self.pos = self.pos + buf.len();
        buf.len()
    }
}

/// Copies `v[from..to]`.
pub fn copy_range(v: &[u8], from: usize, to: usize) -> (r: Vec<u8>)
    requires
        from <= to <= v@.len(),
    ensures
        r@ == v@.subrange(from as int, to as int),
{
    let mut r: Vec<u8> = Vec::new();
    let mut i: usize = from;
    while i < to
        invariant
            from <= i <= to,
            to <= v@.len(),
            r@ == v@.subrange(from as int, i as int),
        decreases to - i,
    {
        r.push(v[i]);
        assert(r@ =~= v@.subrange(from as int, i + 1));
        i += 1;
    }
    r
}

/// Lays `src` over `v` from `at` on, growing `v` where `src` reaches past its end.
pub fn splice(v: &mut Vec<u8>, at: usize, src: &[u8])
    requires
        at <= old(v)@.len(),
        at + src@.len() <= usize::MAX,
    ensures
        final(v)@ == overwrite(old(v)@, at as int, src@),
{
    let mut j: usize = 0;
    while j < src.len()
        invariant
            j <= src@.len(),
            at <= old(v)@.len(),
            at + src@.len() <= usize::MAX,
            v@.len() == if at + j > old(v)@.len() {
                (at + j) as nat
            } else {
                old(v)@.len()
            },
            forall|k: int|
                0 <= k < v@.len() ==> v@[k] == (if at <= k < at + j {
                    src@[k - at]
                } else {
                    old(v)@[k]
                }),
        decreases src@.len() - j,
    {
        if at + j < v.len() {
            v[at + j] = src[j];
        } else {
            v.push(src[j]);
        }
        j += 1;
    }
    assert(v@ =~= overwrite(old(v)@, at as int, src@));
}

} // verus!
