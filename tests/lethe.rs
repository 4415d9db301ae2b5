use lethe::crypto::onetime_decrypt;
use lethe::{Error, Lethe, LetheBuilder, MemIo, MemStore};

const D: usize = 4096;

fn fresh() -> Lethe<D> {
    Lethe::<D>::new(MemIo::new(), MemStore::new())
}

#[test]
fn persist_reload_then_truncate() {
    let mut lethe = fresh();
    lethe.create(7).unwrap();
    let data: Vec<u8> = (0..D + 7).map(|i| (i % 253) as u8).collect();
    assert_eq!(lethe.write(7, 0, &data), Ok(D + 7));
    lethe.persist_state().unwrap();
    let (enclave, storage) = lethe.into_parts();

    let mut lethe = Lethe::<D>::new(enclave, storage);
    lethe.load_state().unwrap();
    let mut buf = vec![0u8; D + 7];
    assert_eq!(lethe.read(7, 0, &mut buf), Ok(D + 7));
    assert_eq!(buf, data);

    lethe.truncate(7, (D / 2) as u64).unwrap();
    assert_eq!(lethe.get_info(7), Ok((D / 2) as u64));
    let mut one = vec![0u8; 1];
    assert_eq!(lethe.read(7, (D / 2) as u64, &mut one), Ok(0));
    let mut head = vec![0u8; D / 2];
    assert_eq!(lethe.read(7, 0, &mut head), Ok(D / 2));
    assert_eq!(&head[..], &data[..D / 2]);
}

#[test]
fn truncate_keeps_exactly_the_keys_of_remaining_blocks() {
    let mut lethe = fresh();
    lethe.create(1).unwrap();
    lethe.write(1, 0, &vec![5u8; 3 * D]).unwrap();
    lethe.truncate(1, (D + 1) as u64).unwrap();
    let khf = lethe.get_khf(1).unwrap();
    assert!(khf.derive(0).is_some());
    assert!(khf.derive(1).is_some());
    assert!(khf.derive(2).is_none());
    let mut buf = vec![0u8; 2 * D];
    assert_eq!(lethe.read(1, 0, &mut buf), Ok(D + 1));
    assert_eq!(&buf[..D + 1], &vec![5u8; D + 1][..]);
}

#[test]
fn truncate_grows_with_zeros() {
    let mut lethe = fresh();
    lethe.create(2).unwrap();
    lethe.write(2, 0, &[9u8; 10]).unwrap();
    lethe.truncate(2, 20).unwrap();
    assert_eq!(lethe.get_info(2), Ok(20));
    let mut buf = vec![1u8; 20];
    assert_eq!(lethe.read(2, 0, &mut buf), Ok(20));
    assert_eq!(&buf[..10], &[9u8; 10]);
    assert_eq!(&buf[10..], &[0u8; 10]);
}

#[test]
fn rewriting_a_block_rotates_its_key() {
    let mut lethe = fresh();
    lethe.create(7).unwrap();
    let p = vec![b'p'; D];
    lethe.write(7, (5 * D) as u64, &p).unwrap();
    let map_id = lethe.get_khf_mapping(7).unwrap().map_id;
    let c1 = lethe.storage().get(map_id).unwrap()[5 * D..6 * D].to_vec();
    let k1 = lethe.get_khf(7).unwrap().derive(5).unwrap();

    let p_next = vec![b'q'; D];
    lethe.write(7, (5 * D) as u64, &p_next).unwrap();
    let c2 = lethe.storage().get(map_id).unwrap()[5 * D..6 * D].to_vec();
    let k2 = lethe.get_khf(7).unwrap().derive(5).unwrap();

    assert_ne!(c1, c2);
    assert_ne!(k1, k2);
    assert_ne!(onetime_decrypt(&k1, &c2), p_next);
    assert_eq!(onetime_decrypt(&k2, &c2), p_next);
    assert_eq!(onetime_decrypt(&k1, &c1), p);
}

#[test]
fn reload_without_commit_returns_committed_state() {
    let mut lethe = fresh();
    lethe.create(1).unwrap();
    lethe.write(1, 0, b"committed").unwrap();
    lethe.persist_state().unwrap();

    lethe.create(2).unwrap();
    lethe.write(2, 0, b"lost").unwrap();
    lethe.destroy(1).unwrap();
    let (enclave, storage) = lethe.into_parts();

    let mut lethe = Lethe::<D>::new(enclave, storage);
    lethe.load_state().unwrap();
    assert!(lethe.get_khf_mapping(1).is_some());
    assert!(lethe.get_khf_mapping(2).is_none());
}

#[test]
fn two_commits_in_a_row_reload() {
    let mut lethe = fresh();
    lethe.create(3).unwrap();
    lethe.write(3, 0, b"twice").unwrap();
    lethe.persist_state().unwrap();
    lethe.persist_state().unwrap();
    let (enclave, storage) = lethe.into_parts();
    let mut lethe = Lethe::<D>::new(enclave, storage);
    lethe.load_state().unwrap();
    let mut buf = vec![0u8; 5];
    assert_eq!(lethe.read(3, 0, &mut buf), Ok(5));
    assert_eq!(&buf, b"twice");
}

#[test]
fn commit_rotates_master_key() {
    let mut lethe = fresh();
    lethe.persist_state().unwrap();
    let (enclave, storage) = lethe.into_parts();
    let first = enclave.into_inner();
    let mut lethe = Lethe::<D>::new(MemIo::from_vec(first.clone()), storage);
    lethe.load_state().unwrap();
    lethe.persist_state().unwrap();
    let (enclave, _) = lethe.into_parts();
    let second = enclave.into_inner();
    assert_eq!(first.len(), 32);
    assert_eq!(second.len(), 32);
    assert_ne!(first, second);
}

#[test]
fn create_and_destroy() {
    let mut lethe = fresh();
    lethe.create(10).unwrap();
    let e = lethe.get_khf_mapping(10).unwrap();
    assert_ne!(e.map_id, e.khf_id);
    assert!(e.map_id > 3 && e.khf_id > 3);
    assert_eq!(lethe.get_info(10), Ok(0));
    lethe.destroy(10).unwrap();
    assert!(lethe.get_khf_mapping(10).is_none());
    assert!(lethe.storage().get(e.map_id).is_none());
    assert_eq!(lethe.destroy(10), Ok(()));
}

#[test]
fn unknown_object_is_missing() {
    let mut lethe = fresh();
    let mut buf = vec![0u8; 4];
    assert_eq!(lethe.read(99, 0, &mut buf), Err(Error::MissingKhf));
    assert_eq!(lethe.write(99, 0, &[1]), Err(Error::MissingKhf));
    assert_eq!(lethe.truncate(99, 0), Err(Error::MissingKhf));
    assert_eq!(lethe.get_info(99), Err(Error::MissingKhf));
}

#[test]
fn load_without_enclave_key_is_io() {
    let mut lethe = fresh();
    assert_eq!(lethe.load_state(), Err(Error::Io));
}

#[test]
fn load_of_corrupt_snapshot_is_serde() {
    let mut lethe = fresh();
    lethe.persist_state().unwrap();
    let (enclave, mut storage) = lethe.into_parts();
    storage.put(1, vec![1, 2, 3]);
    let mut lethe = Lethe::<D>::new(enclave, storage);
    assert_eq!(lethe.load_state(), Err(Error::Serde));
}

#[test]
fn object_table_loads_lazily_after_reload() {
    let mut lethe = fresh();
    lethe.create(4).unwrap();
    lethe.write(4, 0, b"lazy").unwrap();
    lethe.persist_state().unwrap();
    let (enclave, storage) = lethe.into_parts();
    let mut lethe = Lethe::<D>::new(enclave, storage);
    lethe.load_state().unwrap();
    let khf = lethe.get_khf(4).unwrap();
    assert!(khf.derive(0).is_some());
}

#[test]
fn builder_sets_fanouts() {
    let mut builder = LetheBuilder::<D>::new();
    builder.master_khf_fanouts(&[2, 2]).object_khf_fanouts(&[8]);
    let mut lethe = builder.build(MemIo::new(), MemStore::new());
    lethe.create(1).unwrap();
    lethe.write(1, 0, b"x").unwrap();
    lethe.persist_state().unwrap();
    let (enclave, storage) = lethe.into_parts();
    let mut lethe = Lethe::<D>::options().build(enclave, storage);
    lethe.load_state().unwrap();
    let mut buf = vec![0u8; 1];
    assert_eq!(lethe.read(1, 0, &mut buf), Ok(1));
    assert_eq!(buf, b"x".to_vec());
}

#[test]
fn store_opens_objects_by_mode() {
    let mut store = MemStore::new();
    store.put(5, vec![1, 2, 3]);
    let mut io = store.open(5, lethe::Mode::Read).unwrap();
    let mut buf = vec![0u8; 3];
    assert_eq!(io.read(&mut buf), 3);
    assert_eq!(buf, vec![1, 2, 3]);
    assert_eq!(store.open(5, lethe::Mode::Write).unwrap().len(), 0);
    assert!(store.open(6, lethe::Mode::Read).is_none());
}
