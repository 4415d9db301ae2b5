use crate::error::Error;
use std::collections::HashMap;
use vstd::prelude::*;

verus! {

broadcast use vstd::std_specs::hash::group_hash_axioms;

/// The mode to open an object in.
#[derive(Debug, Clone, Copy, PartialEq, Eq, Structural)]
pub enum Mode {
    Read,
    Write,
}

/// An object store held in memory: byte strings under 64-bit identifiers.
pub struct MemStore {
    objects: HashMap<u64, Vec<u8>>,
}

impl MemStore {
    /// The bytes of each object.
    pub closed spec fn objects(&self) -> Map<u64, Seq<u8>> {
        self.objects@.map_values(|v: Vec<u8>| v@)
    }

    /// Creates a store without objects.
    pub fn new() -> (r: Self)
        ensures
            r.objects() == Map::<u64, Seq<u8>>::empty(),
    {
        let r = MemStore { objects: HashMap::new() };
        assert(r.objects() =~= Map::<u64, Seq<u8>>::empty());
        r
    }

    /// Creates an empty object `id`, replacing any object there.
    pub fn create(&mut self, id: u64)
        ensures
            final(self).objects() == old(self).objects().insert(id, Seq::<u8>::empty()),
    {
        self.objects.insert(id, Vec::new());
        assert(self.objects() =~= old(self).objects().insert(id, Seq::<u8>::empty()));
    }

    /// Removes object `id`, if there is one.
    pub fn destroy(&mut self, id: u64)
        ensures
            final(self).objects() == old(self).objects().remove(id),
    {
        self.objects.remove(&id);
        assert(self.objects() =~= old(self).objects().remove(id));
    }

    /// Returns a copy of object `id`.
    pub fn get(&self, id: u64) -> (r: Option<Vec<u8>>)
        ensures
            r is Some <==> self.objects().contains_key(id),
            r matches Some(v) ==> v@ == self.objects()[id],
    {
        match self.objects.get(&id) {
            Some(v) => Some(v.clone()),
            None => None,
        }
    }

    /// Opens object `id` as a stream positioned at its start: in `Read` mode over its bytes, in
    /// `Write` mode empty, for bytes that `put` then stores in its place. Fails where there is
    /// no such object.
    pub fn open(&self, id: u64, mode: Mode) -> (r: Option<crate::memio::MemIo>)
        ensures
            r is Some <==> self.objects().contains_key(id),
            r matches Some(io) ==> io.position() == 0 && io.contents() == (match mode {
                Mode::Read => self.objects()[id],
                Mode::Write => Seq::<u8>::empty(),
            }),
    {
        match self.get(id) {
            Some(v) => match mode {
                Mode::Read => Some(crate::memio::MemIo::from_vec(v)),
                Mode::Write => Some(crate::memio::MemIo::new()),
            },
            None => None,
        }
    }

    /// Stores `data` as object `id`, replacing any object there.
    pub fn put(&mut self, id: u64, data: Vec<u8>)
        ensures
            final(self).objects() == old(self).objects().insert(id, data@),
    {
        self.objects.insert(id, data);
        assert(self.objects() =~= old(self).objects().insert(id, data@));
    }

    /// Removes object `id` and returns its bytes.
    pub fn take(&mut self, id: u64) -> (r: Option<Vec<u8>>)
        ensures
            r is Some <==> old(self).objects().contains_key(id),
            r matches Some(v) ==> v@ == old(self).objects()[id],
            final(self).objects() == old(self).objects().remove(id),
    {
        let r = self.objects.remove(&id);
        assert(self.objects() =~= old(self).objects().remove(id));
        r
    }

    /// Returns the size in bytes of object `id`.
    pub fn size(&self, id: u64) -> (r: Option<usize>)
        ensures
            r is Some <==> self.objects().contains_key(id),
            r matches Some(n) ==> n == self.objects()[id].len(),
    {
        match self.objects.get(&id) {
            Some(v) => Some(v.len()),
            None => None,
        }
    }

    /// Cuts object `id` to `size` bytes, or grows it with zero bytes to that size; fails with
    /// `Io` when there is no such object.
    pub fn truncate(&mut self, id: u64, size: usize) -> (r: Result<(), Error>)
        ensures
            r is Ok <==> old(self).objects().contains_key(id),
            r is Ok ==> final(self).objects() == old(self).objects().insert(
                id,
                crate::memio::zero_pad(old(self).objects()[id], size as int).subrange(0, size as int),
            ),
            r is Err ==> r == Err::<(), Error>(Error::Io) && final(self).objects() == old(self).objects(),
    {
        match self.objects.remove(&id) {
            Some(v) => {
                let mut v = v;
                let ghost v0 = v@;
                let ghost padded = crate::memio::zero_pad(v@, size as int);
                if v.len() > size {
                    v.truncate(size);
                } else {
                    while v.len() < size
                        invariant
                            v@.len() <= size,
                            v0.len() <= v@.len(),
                            v0.len() <= size,
                            padded == crate::memio::zero_pad(v0, size as int),
                            padded.len() == size,
                            forall|k: int| 0 <= k < v@.len() ==> v@[k] == padded[k],
                        decreases size - v@.len(),
                    {
                        v.push(0u8);
                    }
                }
                assert(v@ =~= padded.subrange(0, size as int));
                self.objects.insert(id, v);
                assert(self.objects() =~= old(self).objects().insert(id, padded.subrange(0, size as int)));
                Ok(())
            },
            None => Err(Error::Io),
        }
    }
}

} // verus!
