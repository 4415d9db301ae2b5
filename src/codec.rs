use vstd::prelude::*;

verus! {

/// The eight little-endian bytes of `x`.
pub open spec fn le64(x: u64) -> Seq<u8> {
    seq![
        (x & 0xff) as u8,
        ((x >> 8u64) & 0xff) as u8,
        ((x >> 16u64) & 0xff) as u8,
        ((x >> 24u64) & 0xff) as u8,
        ((x >> 32u64) & 0xff) as u8,
        ((x >> 40u64) & 0xff) as u8,
        ((x >> 48u64) & 0xff) as u8,
        ((x >> 56u64) & 0xff) as u8,
    ]
}

/// The words of `w`, each as its eight little-endian bytes, one after another.
pub open spec fn words_bytes(w: Seq<u64>) -> Seq<u8>
    decreases w.len(),
{
    if w.len() == 0 {
        Seq::empty()
    } else {
        words_bytes(w.drop_last()) + le64(w.last())
    }
}

pub proof fn lemma_words_bytes_len(w: Seq<u64>)
    ensures
        words_bytes(w).len() == 8 * w.len(),
    decreases w.len(),
{
    if w.len() > 0 {
        lemma_words_bytes_len(w.drop_last());
    }
}

proof fn lemma_words_bytes_index(w: Seq<u64>, i: int, k: int)
    requires
        0 <= i < w.len(),
        0 <= k < 8,
    ensures
        words_bytes(w).len() == 8 * w.len(),
        words_bytes(w)[8 * i + k] == le64(w[i])[k],
    decreases w.len(),
{
    lemma_words_bytes_len(w);
    lemma_words_bytes_len(w.drop_last());
    if i < w.len() - 1 {
        lemma_words_bytes_index(w.drop_last(), i, k);
    }
}

/// Two word sequences with the same bytes are the same.
pub proof fn lemma_words_bytes_injective(a: Seq<u64>, b: Seq<u64>)
    requires
        words_bytes(a) == words_bytes(b),
    ensures
        a == b,
{
    lemma_words_bytes_len(a);
    lemma_words_bytes_len(b);
    assert forall|i: int| 0 <= i < a.len() implies a[i] == b[i] by {
        assert forall|k: int| 0 <= k < 8 implies le64(a[i])[k] == le64(b[i])[k] by {
            lemma_words_bytes_index(a, i, k);
            lemma_words_bytes_index(b, i, k);
        }
        lemma_le64_injective(a[i], b[i]);
    }
    assert(a =~= b);
}

pub proof fn lemma_le64_injective(x: u64, y: u64)
    requires
        forall|k: int| 0 <= k < 8 ==> le64(x)[k] == le64(y)[k],
    ensures
        x == y,
{
    assert(le64(x)[0] == le64(y)[0]);
    assert(le64(x)[1] == le64(y)[1]);
    assert(le64(x)[2] == le64(y)[2]);
    assert(le64(x)[3] == le64(y)[3]);
    assert(le64(x)[4] == le64(y)[4]);
    assert(le64(x)[5] == le64(y)[5]);
    assert(le64(x)[6] == le64(y)[6]);
    assert(le64(x)[7] == le64(y)[7]);
    assert(((x & 0xff) as u8 == (y & 0xff) as u8 && ((x >> 8u64) & 0xff) as u8 == ((y >> 8u64)
        & 0xff) as u8 && ((x >> 16u64) & 0xff) as u8 == ((y >> 16u64) & 0xff) as u8 && ((x
        >> 24u64) & 0xff) as u8 == ((y >> 24u64) & 0xff) as u8 && ((x >> 32u64) & 0xff) as u8
        == ((y >> 32u64) & 0xff) as u8 && ((x >> 40u64) & 0xff) as u8 == ((y >> 40u64) & 0xff)
        as u8 && ((x >> 48u64) & 0xff) as u8 == ((y >> 48u64) & 0xff) as u8 && ((x >> 56u64)
        & 0xff) as u8 == ((y >> 56u64) & 0xff) as u8) ==> x == y) by (bit_vector);
}

/// Appends the eight little-endian bytes of `x`.
pub fn push_u64(out: &mut Vec<u8>, x: u64)
    ensures
        final(out)@ == old(out)@ + le64(x),
{
    out.push((x & 0xff) as u8);
    out.push(((x >> 8u64) & 0xff) as u8);
    out.push(((x >> 16u64) & 0xff) as u8);
    out.push(((x >> 24u64) & 0xff) as u8);
    out.push(((x >> 32u64) & 0xff) as u8);
    out.push(((x >> 40u64) & 0xff) as u8);
    out.push(((x >> 48u64) & 0xff) as u8);
    out.push(((x >> 56u64) & 0xff) as u8);
    assert(out@ =~= old(out)@ + le64(x));
}

/// Reads the little-endian word at `at`.
pub fn read_u64(b: &[u8], at: usize) -> (r: u64)
    requires
        at + 8 <= b@.len(),
    ensures
        le64(r) == b@.subrange(at as int, at + 8),
{
    let b0 = b[at] as u64;
    let b1 = b[at + 1] as u64;
    let b2 = b[at + 2] as u64;
    let b3 = b[at + 3] as u64;
    let b4 = b[at + 4] as u64;
    let b5 = b[at + 5] as u64;
    let b6 = b[at + 6] as u64;
    let b7 = b[at + 7] as u64;
    let r = b0 | (b1 << 8u64) | (b2 << 16u64) | (b3 << 24u64) | (b4 << 32u64) | (b5 << 40u64) | (
    b6 << 48u64) | (b7 << 56u64);
    assert(b0 < 256 && b1 < 256 && b2 < 256 && b3 < 256 && b4 < 256 && b5 < 256 && b6 < 256 && b7
        < 256);
    assert((r & 0xff) as u8 == b0 as u8 && ((r >> 8u64) & 0xff) as u8 == b1 as u8 && ((r >> 16u64)
        & 0xff) as u8 == b2 as u8 && ((r >> 24u64) & 0xff) as u8 == b3 as u8 && ((r >> 32u64)
        & 0xff) as u8 == b4 as u8 && ((r >> 40u64) & 0xff) as u8 == b5 as u8 && ((r >> 48u64)
        & 0xff) as u8 == b6 as u8 && ((r >> 56u64) & 0xff) as u8 == b7 as u8) by (bit_vector)
        requires
            b0 < 256,
            b1 < 256,
            b2 < 256,
            b3 < 256,
            b4 < 256,
            b5 < 256,
            b6 < 256,
            b7 < 256,
            r == b0 | (b1 << 8u64) | (b2 << 16u64) | (b3 << 24u64) | (b4 << 32u64) | (b5 << 40u64)
                | (b6 << 48u64) | (b7 << 56u64),
    ;
    assert(le64(r) =~= b@.subrange(at as int, at + 8));
    r
}

/// Encodes words as their little-endian bytes.
pub fn encode_words(w: &Vec<u64>) -> (r: Vec<u8>)
    ensures
        r@ == words_bytes(w@),
{
    let mut out: Vec<u8> = Vec::new();
    let mut i: usize = 0;
    while i < w.len()
        invariant
            i <= w@.len(),
            out@ == words_bytes(w@.subrange(0, i as int)),
        decreases w@.len() - i,
    {
        push_u64(&mut out, w[i]);
        assert(w@.subrange(0, i + 1).drop_last() =~= w@.subrange(0, i as int));
        i += 1;
    }
    assert(w@.subrange(0, w@.len() as int) =~= w@);
    out
}

/// Decodes little-endian words; fails when the length is not a multiple of eight.
pub fn decode_words(b: &[u8]) -> (r: Option<Vec<u64>>)
    ensures
        r is Some <==> b@.len() % 8 == 0,
        r matches Some(w) ==> words_bytes(w@) == b@,
{
    if b.len() % 8 != 0 {
        return None;
    }
    let mut w: Vec<u64> = Vec::new();
    let mut at: usize = 0;
    while at < b.len()
        invariant
            at <= b@.len(),
            at % 8 == 0,
            b@.len() % 8 == 0,
            words_bytes(w@) == b@.subrange(0, at as int),
        decreases b@.len() - at,
    {
        let x = read_u64(b, at);
        let ghost before = w@;
        w.push(x);
        assert(w@.drop_last() =~= before);
        assert(b@.subrange(0, at + 8) =~= b@.subrange(0, at as int) + b@.subrange(at as int, at + 8));
        at += 8;
    }
    assert(b@.subrange(0, b@.len() as int) =~= b@);
    Some(w)
}

} // verus!
