use lethe::{BlockCryptIo, KeyTable, MemIo, SeekFrom};

const BLOCK_SIZE: usize = 4096;

fn new_io() -> BlockCryptIo<BLOCK_SIZE> {
    BlockCryptIo::<BLOCK_SIZE>::new(MemIo::new(), KeyTable::new())
}

// Writes 4 blocks of 'a's, then 4 'b's at offset 3.
#[test]
fn offset_write() {
    let mut blockio = new_io();

    assert_eq!(blockio.write(&[b'a'; 4 * BLOCK_SIZE]), 4 * BLOCK_SIZE);
    blockio.seek(SeekFrom::Start(3)).unwrap();
    assert_eq!(blockio.write(&[b'b'; 4]), 4);

    let mut buf = vec![0; 4 * BLOCK_SIZE];
    blockio.seek(SeekFrom::Start(0)).unwrap();
    assert_eq!(blockio.read(&mut buf), 4 * BLOCK_SIZE);

    assert_eq!(&buf[..3], &[b'a'; 3]);
    assert_eq!(&buf[3..7], &[b'b'; 4]);
    assert_eq!(&buf[7..], &[b'a'; 4 * BLOCK_SIZE - 7][..]);
}

// Writes 2 blocks of 'a's and a block of 'b' right in the middle.
#[test]
fn misaligned_write() {
    let mut blockio = new_io();

    blockio.write(&[b'a'; 2 * BLOCK_SIZE]);
    blockio.seek(SeekFrom::Start((BLOCK_SIZE / 2) as u64)).unwrap();
    blockio.write(&[b'b'; BLOCK_SIZE]);

    let mut buf = vec![0; 2 * BLOCK_SIZE];
    blockio.seek(SeekFrom::Start(0)).unwrap();
    assert_eq!(blockio.read(&mut buf), 2 * BLOCK_SIZE);

    assert_eq!(&buf[..BLOCK_SIZE / 2], &[b'a'; BLOCK_SIZE / 2][..]);
    assert_eq!(
        &buf[BLOCK_SIZE / 2..BLOCK_SIZE / 2 + BLOCK_SIZE],
        &[b'b'; BLOCK_SIZE][..]
    );
    assert_eq!(
        &buf[BLOCK_SIZE / 2 + BLOCK_SIZE..],
        &[b'a'; BLOCK_SIZE / 2][..]
    );
}

#[test]
fn short_write() {
    let mut blockio = new_io();

    blockio.write(&[b'a']);
    blockio.write(&[b'b']);

    let mut buf = vec![0; 2];
    blockio.seek(SeekFrom::Start(0)).unwrap();
    assert_eq!(blockio.read(&mut buf), 2);

    assert_eq!(&buf[..], &[b'a', b'b']);
}

#[test]
fn read_too_much() {
    let mut blockio = new_io();

    blockio.write(&[b'a'; 16]);

    let mut buf = vec![0; BLOCK_SIZE];
    blockio.seek(SeekFrom::Start(0)).unwrap();
    let n = blockio.read(&mut buf);

    assert_eq!(n, 16);
    assert_eq!(&buf[..n], &[b'a'; 16]);
}

#[test]
fn read_at_end_reads_nothing_and_stays() {
    let mut blockio = new_io();
    blockio.write(&[7u8; 10]);
    let mut buf = vec![9u8; 4];
    assert_eq!(blockio.read(&mut buf), 0);
    assert_eq!(buf, vec![9u8; 4]);
    assert_eq!(blockio.seek(SeekFrom::Current(0)).unwrap(), 10);
    blockio.seek(SeekFrom::Start(20)).unwrap();
    assert_eq!(blockio.read(&mut buf), 0);
    assert_eq!(blockio.seek(SeekFrom::Current(0)).unwrap(), 20);
}

#[test]
fn write_past_end_fills_the_gap_with_zeros() {
    let mut blockio = new_io();
    blockio.write(&[1u8; 5]);
    blockio.seek(SeekFrom::Start(9)).unwrap();
    assert_eq!(blockio.write(&[2u8; 3]), 3);
    let mut buf = vec![7u8; 12];
    blockio.seek(SeekFrom::Start(0)).unwrap();
    assert_eq!(blockio.read(&mut buf), 12);
    assert_eq!(buf, vec![1, 1, 1, 1, 1, 0, 0, 0, 0, 2, 2, 2]);
}

#[test]
fn block_aligned_write_past_end_extends() {
    let mut blockio = new_io();
    blockio.seek(SeekFrom::Start((5 * BLOCK_SIZE) as u64)).unwrap();
    assert_eq!(blockio.write(&[b'p'; BLOCK_SIZE]), BLOCK_SIZE);
    let mut buf = vec![9u8; 6 * BLOCK_SIZE];
    blockio.seek(SeekFrom::Start(0)).unwrap();
    assert_eq!(blockio.read(&mut buf), 6 * BLOCK_SIZE);
    assert_eq!(&buf[..5 * BLOCK_SIZE], &vec![0u8; 5 * BLOCK_SIZE][..]);
    assert_eq!(&buf[5 * BLOCK_SIZE..], &[b'p'; BLOCK_SIZE][..]);
}

#[test]
fn unaligned_write_then_read_across_blocks() {
    let mut blockio = new_io();
    let data: Vec<u8> = (0..3 * BLOCK_SIZE + 123).map(|i| (i % 251) as u8).collect();
    blockio.write(&vec![0u8; 4 * BLOCK_SIZE]);
    blockio.seek(SeekFrom::Start(1000)).unwrap();
    assert_eq!(blockio.write(&data), data.len());
    assert_eq!(blockio.seek(SeekFrom::Current(0)).unwrap(), (1000 + data.len()) as u64);
    blockio.seek(SeekFrom::Start(1000)).unwrap();
    let mut buf = vec![0u8; data.len()];
    assert_eq!(blockio.read(&mut buf), data.len());
    assert_eq!(buf, data);
}

#[test]
fn write_extends_partial_tail_block() {
    let mut blockio = new_io();
    blockio.write(&[b'x'; 10]);
    blockio.seek(SeekFrom::Start(8)).unwrap();
    assert_eq!(blockio.write(&[b'y'; 6]), 6);
    let mut buf = vec![0u8; 20];
    blockio.seek(SeekFrom::Start(0)).unwrap();
    assert_eq!(blockio.read(&mut buf), 14);
    assert_eq!(&buf[..8], &[b'x'; 8]);
    assert_eq!(&buf[8..14], &[b'y'; 6]);
}

#[test]
fn write_rotates_keys_of_touched_blocks_only() {
    let mut blockio = new_io();
    blockio.write(&vec![3u8; 3 * BLOCK_SIZE]);
    let (io, mut kms) = blockio.into_parts();
    let dirty = kms.commit();
    assert_eq!(dirty.len(), 3);
    let k0 = kms.derive(0).unwrap();
    let k1 = kms.derive(1).unwrap();
    let k2 = kms.derive(2).unwrap();

    let mut blockio = BlockCryptIo::<BLOCK_SIZE>::new(io, kms);
    blockio.seek(SeekFrom::Start(BLOCK_SIZE as u64 + 5)).unwrap();
    blockio.write(&[4u8; 2]);
    let (_, mut kms) = blockio.into_parts();
    assert_eq!(kms.derive(0).unwrap(), k0);
    assert_ne!(kms.derive(1).unwrap(), k1);
    assert_eq!(kms.derive(2).unwrap(), k2);
    assert_eq!(kms.commit(), vec![1]);
}

#[test]
fn seek_before_start_fails() {
    let mut blockio = new_io();
    blockio.write(&[1u8; 4]);
    assert_eq!(blockio.seek(SeekFrom::Current(-5)), Err(lethe::Error::Io));
    assert_eq!(blockio.seek(SeekFrom::End(-1)).unwrap(), 3);
}
