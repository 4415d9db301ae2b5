use crate::error::Error;
use vstd::prelude::*;

verus! {

/// The number of distinct 64-bit identifiers.
pub open spec fn id_space() -> nat {
    0x1_0000_0000_0000_0000
}

/// The identifier `k` steps after `start`, wrapping around at 2^64.
pub open spec fn id_after(start: u64, k: nat) -> u64 {
    ((start as nat + k) % id_space()) as u64
}

/// Hands out 64-bit identifiers, scanning forward from the last one handed out.
pub struct Allocator {
    latest: u64,
    allocated: Vec<u64>,
}

impl Allocator {
    /// The cursor from which the next scan starts.
    pub closed spec fn latest_id(&self) -> u64 {
        self.latest
    }

    /// The identifiers that are currently handed out.
    pub closed spec fn ids(&self) -> Set<u64> {
        self.allocated@.to_set()
    }

    pub closed spec fn wf(&self) -> bool {
        self.allocated@.no_duplicates()
    }

    /// Creates an allocator with nothing handed out.
    pub fn new() -> (r: Self)
        ensures
            r.wf(),
            r.latest_id() == 0,
            r.ids() == Set::<u64>::empty(),
    {
        Allocator { latest: 0, allocated: Vec::new() }
    }

    /// Rebuilds an allocator from its cursor and its identifiers, as a snapshot holds them.
    pub fn from_parts(latest: u64, ids: Vec<u64>) -> (r: Option<Self>)
        ensures
            r is Some <==> ids@.no_duplicates(),
            r matches Some(a) ==> a.wf() && a.latest_id() == latest && a.ids() == ids@.to_set()
                && a.id_list() == ids@,
    {
        let mut i: usize = 0;
        while i < ids.len()
            invariant
                i <= ids@.len(),
                forall|a: int, b: int| 0 <= a < b < i ==> ids@[a] != ids@[b],
            decreases ids@.len() - i,
        {
            let mut j: usize = 0;
            while j < i
                invariant
                    i < ids@.len(),
                    j <= i,
                    forall|a: int| 0 <= a < j ==> ids@[a] != ids@[i as int],
                decreases i - j,
            {
                if ids[j] == ids[i] {
                    return None;
                }
                j += 1;
            }
            i += 1;
        }
        Some(Allocator { latest: latest, allocated: ids })
    }

    /// The identifiers handed out, in the order in which they were taken.
    pub closed spec fn id_list(&self) -> Seq<u64> {
        self.allocated@
    }

    /// Returns the cursor.
    pub fn latest(&self) -> (r: u64)
        ensures
            r == self.latest_id(),
    {
        self.latest
    }

    /// Returns the identifiers handed out, in the order in which they were taken.
    pub fn allocated(&self) -> (r: Vec<u64>)
        ensures
            r@ == self.id_list(),
            r@.to_set() == self.ids(),
    {
        self.allocated.clone()
    }

    /// Tells whether `id` is handed out.
    pub fn contains(&self, id: u64) -> (r: bool)
        ensures
            r == self.ids().contains(id),
    {
        let mut i: usize = 0;
        while i < self.allocated.len()
            invariant
                i <= self.allocated@.len(),
                forall|j: int| 0 <= j < i ==> self.allocated@[j] != id,
            decreases self.allocated@.len() - i,
        {
            if self.allocated[i] == id {
                return true;
            }
            i += 1;
        }
        false
    }

    /// Hands out the first free identifier at or after the cursor, wrapping around, and moves
    /// the cursor to it; fails only when every identifier is handed out.
    pub fn allocate(&mut self) -> (r: Result<u64, Error>)
        requires
            old(self).wf(),
        ensures
            final(self).wf(),
            match r {
                Ok(id) => {
                    &&& !old(self).ids().contains(id)
                    &&& final(self).ids() == old(self).ids().insert(id)
                    &&& final(self).latest_id() == id
                    &&& exists|k: nat|
                        k < id_space() && id == id_after(old(self).latest_id(), k) && forall|j: nat|
                            j < k ==> old(self).ids().contains(#[trigger] id_after(old(self).latest_id(), j))
                },
                Err(e) => {
                    &&& e == Error::Alloc
                    &&& forall|x: u64| old(self).ids().contains(x)
                    &&& final(self).latest_id() == old(self).latest_id()
                    &&& final(self).id_list() == old(self).id_list()
                    &&& final(self).ids() == old(self).ids()
                },
            },
    {
        let start = self.latest;
        let mut looped = false;
        let ghost mut k: nat = 0;
        while !(start == self.latest && looped)
            invariant
                self.wf(),
                self.allocated@ == old(self).allocated@,
                start == old(self).latest,
                old(self).wf(),
                k <= id_space(),
                self.latest == id_after(start, k),
                looped == (k > 0),
                forall|j: nat| j < k ==> self.ids().contains(#[trigger] id_after(start, j)),
            decreases id_space() - k,
        {
            proof {
                if k == id_space() {
                    assert(id_after(start, k) == start) by {
                        vstd::arithmetic::div_mod::lemma_mod_add_multiples_vanish(start as int, id_space() as int);
                        vstd::arithmetic::div_mod::lemma_small_mod(start as nat, id_space());
                    }
                }
            }
            if !self.contains(self.latest) {
                let id = self.latest;
                self.push_new(id);
                assert(forall|j: nat| j < k ==> old(self).ids().contains(#[trigger] id_after(old(self).latest_id(), j)));
                assert(k < id_space());
                assert(id == id_after(old(self).latest_id(), k));
                return Ok(id);
            }
            self.latest = if self.latest == u64::MAX { 0 } else { self.latest + 1 };
            proof {
                assert(self.latest == id_after(start, k + 1)) by {
                    let s = start as int;
                    let n = id_space() as int;
                    vstd::arithmetic::div_mod::lemma_add_mod_noop(s + k, 1, n);
                    vstd::arithmetic::div_mod::lemma_small_mod(1, n as nat);
                    vstd::arithmetic::div_mod::lemma_small_mod((id_after(start, k) as nat + 1) % (n as nat), n as nat);
                }
                k = k + 1;
            }
            looped = true;
        }
        assert(k == id_space()) by {
            if k < id_space() {
                vstd::arithmetic::div_mod::lemma_small_mod(start as nat, id_space());
                assert(start == id_after(start, 0));
            }
        }
        assert forall|x: u64| self.ids().contains(x) by {
            let j: nat = ((x as int - start as int) + id_space()) as nat % id_space();
            assert(id_after(start, j) == x) by {
                let n = id_space() as int;
                vstd::arithmetic::div_mod::lemma_add_mod_noop(start as int, (x as int - start as int) + n, n);
                vstd::arithmetic::div_mod::lemma_mod_add_multiples_vanish(x as int, n);
                vstd::arithmetic::div_mod::lemma_small_mod(x as nat, n as nat);
                vstd::arithmetic::div_mod::lemma_small_mod(start as nat, n as nat);
                vstd::arithmetic::div_mod::lemma_mod_twice((x as int - start as int) + n, n);
            }
        }
        assert(self.latest == start) by {
            vstd::arithmetic::div_mod::lemma_mod_add_multiples_vanish(start as int, id_space() as int);
            vstd::arithmetic::div_mod::lemma_small_mod(start as nat, id_space());
        }
        assert(self.latest_id() == old(self).latest_id());
        assert(self.id_list() == old(self).id_list());
        assert(self.ids() == old(self).ids());
        Err(Error::Alloc)
    }

    fn push_new(&mut self, id: u64)
        requires
            old(self).wf(),
            !old(self).ids().contains(id),
        ensures
            final(self).wf(),
            final(self).ids() == old(self).ids().insert(id),
            final(self).latest == old(self).latest,
    {
        self.allocated.push(id);
        proof {
            let s = old(self).allocated@;
            assert(self.allocated@ == s.push(id));
            assert forall|a: int, b: int|
                0 <= a < b < self.allocated@.len() implies self.allocated@[a] != self.allocated@[b] by {
                if b == s.len() {
                    assert(s.contains(s[a]));
                } else {
                    assert(s[a] != s[b]);
                }
            }
            assert forall|x: u64| self.allocated@.contains(x) == s.to_set().insert(id).contains(x) by {
                if s.contains(x) {
                    let w = choose|w: int| 0 <= w < s.len() && s[w] == x;
                    assert(self.allocated@[w] == x);
                }
                if x == id {
                    assert(self.allocated@[s.len() as int] == x);
                }
            }
            assert(self.allocated@.to_set() =~= s.to_set().insert(id));
        }
    }

    /// Releases `id`; releasing an identifier that is not handed out changes nothing.
    pub fn dealloc(&mut self, id: u64)
        requires
            old(self).wf(),
        ensures
            final(self).wf(),
            final(self).ids() == old(self).ids().remove(id),
            final(self).latest_id() == old(self).latest_id(),
    {
        let mut i: usize = 0;
        while i < self.allocated.len()
            invariant
                old(self).wf(),
                self.allocated@ == old(self).allocated@,
                self.latest == old(self).latest,
                i <= self.allocated@.len(),
                forall|j: int| 0 <= j < i ==> self.allocated@[j] != id,
            decreases self.allocated@.len() - i,
        {
            if self.allocated[i] == id {
                self.allocated.remove(i);
                proof {
                    let s = old(self).allocated@;
                    assert(s.no_duplicates());
                    assert(self.allocated@ =~= s.remove(i as int));
                    assert forall|a: int, b: int|
                        0 <= a < b < self.allocated@.len() implies self.allocated@[a] != self.allocated@[b] by {
                        let a2 = if a < i { a } else { a + 1 };
                        let b2 = if b < i { b } else { b + 1 };
                        assert(s[a2] != s[b2]);
                    }
                    assert forall|x: u64| self.allocated@.contains(x) == s.to_set().remove(id).contains(x) by {
                        if s.contains(x) && x != id {
                            let w = choose|w: int| 0 <= w < s.len() && s[w] == x;
                            assert(w != i);
                            let w2 = if w < i { w } else { w - 1 };
                            assert(self.allocated@[w2] == x);
                        }
                    }
                    assert(self.allocated@.to_set() =~= s.to_set().remove(id));
                }
                return;
            }
            i += 1;
        }
        assert(self.allocated@.to_set() =~= old(self).allocated@.to_set().remove(id));
    }

    /// Marks `id` as handed out; fails with `Dealloc` when it already is.
    pub fn reserve(&mut self, id: u64) -> (r: Result<(), Error>)
        requires
            old(self).wf(),
        ensures
            final(self).wf(),
            final(self).latest_id() == old(self).latest_id(),
            r is Ok <==> !old(self).ids().contains(id),
            r is Ok ==> final(self).ids() == old(self).ids().insert(id),
            r matches Err(e) ==> e == Error::Dealloc && final(self).id_list() == old(self).id_list(),
    {
        if self.contains(id) {
            return Err(Error::Dealloc);
        }
        self.push_new(id);
        Ok(())
    }

    /// A well-formed allocator lists each identifier once.
    pub proof fn lemma_wf_unique(a: &Allocator)
        requires
            a.wf(),
        ensures
            a.id_list().no_duplicates(),
    {
    }

    /// Two allocators that list the same identifiers hand out the same set.
    pub proof fn lemma_same_list_same_ids(a: &Allocator, b: &Allocator)
        requires
            a.id_list() == b.id_list(),
        ensures
            a.ids() == b.ids(),
    {
    }
}

} // verus!
