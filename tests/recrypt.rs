use lethe::{BlockCryptIo, BlockRecryptIo, KeyTable, MemIo, SeekFrom};

const BLOCK_SIZE: usize = 4096;

#[test]
fn recrypt_it_works() {
    let mut io = BlockCryptIo::<BLOCK_SIZE>::new(MemIo::new(), KeyTable::new());

    io.write(&[b'a'; 4 * BLOCK_SIZE]);
    io.seek(SeekFrom::Start(BLOCK_SIZE as u64)).unwrap();
    io.write(&[b'b'; 2 * BLOCK_SIZE]);
    let (mem, curr_khf) = io.into_parts();

    // A consolidation gives every block a new key.
    let mut next_khf = KeyTable::new();
    let blocks: Vec<u64> = vec![0, 1, 2, 3];
    for &block in &blocks {
        next_khf.update(block);
    }

    let mut io = BlockRecryptIo::<BLOCK_SIZE>::new(mem, curr_khf, next_khf);

    for block in blocks {
        let mut buf = vec![0; BLOCK_SIZE];

        io.seek(SeekFrom::Start(block * BLOCK_SIZE as u64)).unwrap();
        let n = io.read(&mut buf);

        io.seek(SeekFrom::Start(block * BLOCK_SIZE as u64)).unwrap();
        assert_eq!(io.write(&buf[..n]).unwrap(), n);
    }

    let (mem, _, next_khf) = io.into_parts();
    let mut io = BlockCryptIo::<BLOCK_SIZE>::new(MemIo::from_vec(mem.into_inner()), next_khf);

    let mut buf = vec![0; 4 * BLOCK_SIZE];
    assert_eq!(io.read(&mut buf), 4 * BLOCK_SIZE);

    assert_eq!(&buf[..BLOCK_SIZE], &[b'a'; BLOCK_SIZE][..]);
    assert_eq!(
        &buf[BLOCK_SIZE..3 * BLOCK_SIZE],
        &[b'b'; 2 * BLOCK_SIZE][..]
    );
    assert_eq!(&buf[3 * BLOCK_SIZE..], &[b'a'; BLOCK_SIZE][..]);
}

#[test]
fn recrypt_without_next_key_fails() {
    let mut io = BlockCryptIo::<BLOCK_SIZE>::new(MemIo::new(), KeyTable::new());
    io.write(&[1u8; 10]);
    let (mem, curr) = io.into_parts();
    let mut io = BlockRecryptIo::<BLOCK_SIZE>::new(mem, curr, KeyTable::new());
    assert_eq!(io.write(&[2u8; 3]), Err(lethe::Error::Khf));
    let mut buf = vec![0u8; 10];
    io.seek(SeekFrom::Start(0)).unwrap();
    assert_eq!(io.read(&mut buf), 10);
    assert_eq!(buf, vec![1u8; 10]);
}

#[test]
fn recrypt_write_leaves_both_tables_unchanged() {
    let mut io = BlockCryptIo::<BLOCK_SIZE>::new(MemIo::new(), KeyTable::new());
    io.write(&[1u8; 10]);
    let (mem, curr) = io.into_parts();
    let curr_key = curr.derive(0);
    let mut next = KeyTable::new();
    let k0 = next.update(0);
    let mut io = BlockRecryptIo::<BLOCK_SIZE>::new(mem, curr, next);
    io.seek(SeekFrom::Start(0)).unwrap();
    assert_eq!(io.write(&[2u8; 3]), Ok(3));
    let (mem, curr, next) = io.into_parts();
    assert_eq!(curr.derive(0), curr_key);
    assert_eq!(next.derive(0), Some(k0));
    let mut io = BlockCryptIo::<BLOCK_SIZE>::new(mem, next);
    io.seek(SeekFrom::Start(0)).unwrap();
    let mut buf = vec![0u8; 10];
    assert_eq!(io.read(&mut buf), 10);
    assert_eq!(buf, vec![2, 2, 2, 1, 1, 1, 1, 1, 1, 1]);
}
