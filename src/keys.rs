use crate::codec::{le64, push_u64, read_u64};
use crate::crypto::{random_key, Key, KEY_SIZE};
use std::collections::HashMap;
use vstd::prelude::*;

verus! {

broadcast use vstd::std_specs::hash::group_hash_axioms;

/// A key authority: one key per identifier, rotated on demand, with the set of identifiers
/// rotated since the last commit.
pub struct KeyTable {
    keys: HashMap<u64, Key>,
    ids: Vec<u64>,
    dirty: Vec<u64>,
}

impl KeyTable {
    /// The key of each identifier that has one.
    pub closed spec fn key_map(&self) -> Map<u64, Key> {
        self.keys@
    }

    /// The identifiers rotated since the last commit.
    pub closed spec fn dirty_ids(&self) -> Set<u64> {
        self.dirty@.to_set()
    }

    /// The identifiers that have a key, in the order in which they got one.
    pub closed spec fn id_list(&self) -> Seq<u64> {
        self.ids@
    }

    pub closed spec fn wf(&self) -> bool {
        &&& self.ids@.no_duplicates()
        &&& self.dirty@.no_duplicates()
        &&& forall|x: u64| #[trigger] self.ids@.contains(x) <==> self.keys@.contains_key(x)
    }

    /// Creates a table without keys.
    pub fn new() -> (r: Self)
        ensures
            r.wf(),
            r.key_map() == Map::<u64, Key>::empty(),
            r.dirty_ids() == Set::<u64>::empty(),
    {
        let r = KeyTable { keys: HashMap::new(), ids: Vec::new(), dirty: Vec::new() };
        assert(r.dirty@.to_set() =~= Set::<u64>::empty());
        r
    }

    /// Returns the key of `id`, if it has one.
    pub fn derive(&self, id: u64) -> (r: Option<Key>)
        ensures
            r == self.key_map().get(id),
            r is Some <==> self.key_map().contains_key(id),
    {
        match self.keys.get(&id) {
            Some(k) => Some(*k),
            None => None,
        }
    }

    /// Gives `id` a fresh random key, marks it rotated, and returns the new key.
    pub fn update(&mut self, id: u64) -> (r: Key)
        requires
            old(self).wf(),
        ensures
            final(self).wf(),
            final(self).key_map() == old(self).key_map().insert(id, r),
            final(self).dirty_ids() == old(self).dirty_ids().insert(id),
    {
        let key = random_key();
        if !self.keys.contains_key(&id) {
            push_fresh(&mut self.ids, id);
        }
        self.keys.insert(id, key);
        if !vec_contains(&self.dirty, id) {
            push_fresh(&mut self.dirty, id);
        } else {
            assert(self.dirty@.to_set() =~= old(self).dirty@.to_set().insert(id));
        }
        key
    }

    /// Gives `id` the key `key` and marks it rotated.
    pub fn set(&mut self, id: u64, key: Key)
        requires
            old(self).wf(),
        ensures
            final(self).wf(),
            final(self).key_map() == old(self).key_map().insert(id, key),
            final(self).dirty_ids() == old(self).dirty_ids().insert(id),
    {
        if !self.keys.contains_key(&id) {
            push_fresh(&mut self.ids, id);
        }
        self.keys.insert(id, key);
        if !vec_contains(&self.dirty, id) {
            push_fresh(&mut self.dirty, id);
        } else {
            assert(self.dirty@.to_set() =~= old(self).dirty@.to_set().insert(id));
        }
    }

    /// Returns the identifiers rotated since the last commit, each once, and forgets them.
    pub fn commit(&mut self) -> (r: Vec<u64>)
        requires
            old(self).wf(),
        ensures
            final(self).wf(),
            commits(*old(self), *final(self), r@),
    {
        let mut r: Vec<u64> = Vec::new();
        std::mem::swap(&mut r, &mut self.dirty);
        assert(self.dirty@.to_set() =~= Set::<u64>::empty());
        r
    }

    /// Drops the key of every identifier at or past `count`.
    pub fn truncate(&mut self, count: u64)
        requires
            old(self).wf(),
        ensures
            final(self).wf(),
            final(self).key_map() == old(self).key_map().restrict(
                old(self).key_map().dom().filter(|x: u64| x < count),
            ),
            final(self).dirty_ids() == old(self).dirty_ids(),
    {
        let mut old_ids: Vec<u64> = Vec::new();
        std::mem::swap(&mut old_ids, &mut self.ids);
        let mut i: usize = 0;
        while i < old_ids.len()
            invariant
                i <= old_ids@.len(),
                old_ids@ == old(self).ids@,
                old(self).wf(),
                self.dirty == old(self).dirty,
                self.ids@.no_duplicates(),
                forall|x: u64| #[trigger]
                    self.ids@.contains(x) <==> (old_ids@.subrange(0, i as int).contains(x) && x < count),
                forall|x: u64| #[trigger]
                    self.keys@.contains_key(x) <==> (old(self).keys@.contains_key(x) && !(x >= count
                        && old_ids@.subrange(0, i as int).contains(x))),
                forall|x: u64| #[trigger]
                    self.keys@.contains_key(x) ==> self.keys@[x] == old(self).keys@[x],
            decreases old_ids@.len() - i,
        {
            let id = old_ids[i];
            proof {
                assert(old_ids@.subrange(0, i + 1) =~= old_ids@.subrange(0, i as int).push(id));
                assert(!old_ids@.subrange(0, i as int).contains(id)) by {
                    if old_ids@.subrange(0, i as int).contains(id) {
                        let w = choose|w: int|
                            0 <= w < i && old_ids@.subrange(0, i as int)[w] == id;
                        assert(old_ids@[w] == old_ids@[i as int]);
                    }
                }
            }
            if id < count {
                push_fresh(&mut self.ids, id);
            } else {
                self.keys.remove(&id);
            }
            proof {
                lemma_push_contains(old_ids@.subrange(0, i as int), id);
            }
            i += 1;
        }
        proof {
            assert(old_ids@.subrange(0, old_ids@.len() as int) =~= old_ids@);
            assert(self.keys@ =~= old(self).keys@.restrict(
                old(self).keys@.dom().filter(|x: u64| x < count),
            ));
        }
    }

    /// Every identifier with its key, in the order of `id_list`.
    pub open spec fn entry_seq(&self) -> Seq<(u64, Key)> {
        Seq::new(self.id_list().len(), |i: int| (self.id_list()[i], self.key_map()[self.id_list()[i]]))
    }

    /// Encodes the table's entries; what was rotated since the last commit is not kept.
    pub fn encode(&self) -> (r: Vec<u8>)
        requires
            self.wf(),
        ensures
            r@ == table_bytes(self.entry_seq()),
    {
        let es = self.entries();
        assert(es@ =~= self.entry_seq());
        encode_entries(&es)
    }

    /// Decodes a table that `encode` produced, with nothing marked rotated; fails when the
    /// bytes are not a sequence of whole entries or an identifier occurs twice.
    pub fn decode(b: &[u8]) -> (r: Option<Self>)
        ensures
            r matches Some(t) ==> t.wf() && table_bytes(t.entry_seq()) == b@ && t.dirty_ids()
                == Set::<u64>::empty(),
            (exists|es: Seq<(u64, Key)>| table_bytes(es) == b@ && entries_unique(es)) ==> r is Some,
    {
        proof {
            if exists|es: Seq<(u64, Key)>| table_bytes(es) == b@ && entries_unique(es) {
                let es = choose|es: Seq<(u64, Key)>| table_bytes(es) == b@ && entries_unique(es);
                lemma_table_bytes_len(es);
            }
        }
        match decode_entries(b) {
            None => None,
            Some(es) => {
                proof {
                    if exists|e2: Seq<(u64, Key)>| table_bytes(e2) == b@ && entries_unique(e2) {
                        let e2 = choose|e2: Seq<(u64, Key)>| table_bytes(e2) == b@ && entries_unique(e2);
                        lemma_table_bytes_injective(es@, e2);
                    }
                }
                match KeyTable::from_entries(&es) {
                    None => None,
                    Some(t) => {
                        assert(t.entry_seq() =~= es@);
                        Some(t)
                    },
                }
            },
        }
    }

    /// Returns a table with the same keys and nothing marked rotated.
    pub fn duplicate(&self) -> (r: Self)
        requires
            self.wf(),
        ensures
            r.wf(),
            r.key_map() == self.key_map(),
            r.dirty_ids() == Set::<u64>::empty(),
    {
        let es = self.entries();
        proof {
            KeyTable::lemma_entries_unique(self);
            assert(es@ =~= self.entry_seq());
        }
        match KeyTable::from_entries(&es) {
            Some(t) => {
                proof {
                    assert(t.entry_seq() =~= es@);
                    KeyTable::lemma_same_entries_same_keys(&t, self);
                }
                t
            },
            None => {
                let t = KeyTable::new();
                t
            },
        }
    }

    /// A well-formed table's keys are those its entries give.
    pub proof fn lemma_keys_of_entries(t: &KeyTable)
        requires
            t.wf(),
        ensures
            t.key_map() == keys_of(t.entry_seq()),
    {
        let es = t.entry_seq();
        assert forall|id: u64| #[trigger] t.keys@.contains_key(id) == keys_of(es).contains_key(id) by {
            if t.keys@.contains_key(id) {
                assert(t.ids@.contains(id));
                let w = choose|w: int| 0 <= w < t.ids@.len() && t.ids@[w] == id;
                assert(es[w].0 == id);
            }
            if keys_of(es).contains_key(id) {
                let w = choose|w: int| 0 <= w < es.len() && es[w].0 == id;
                assert(t.ids@[w] == id);
                assert(t.ids@.contains(id));
            }
        }
        assert forall|id: u64| #[trigger] t.keys@.contains_key(id) implies t.keys@[id] == keys_of(es)[id] by {
            assert(keys_of(es).contains_key(id));
            let w = choose|w: int| 0 <= w < es.len() && es[w].0 == id;
            assert(es[w] == (t.ids@[w], t.keys@[t.ids@[w]]));
        }
        assert(t.keys@ =~= keys_of(es));
    }

    /// A well-formed table lists each identifier once.
    pub proof fn lemma_entries_unique(t: &KeyTable)
        requires
            t.wf(),
        ensures
            entries_unique(t.entry_seq()),
    {
        assert forall|a: int, b: int|
            0 <= a < b < t.entry_seq().len() implies (#[trigger] t.entry_seq()[a]).0
            != (#[trigger] t.entry_seq()[b]).0 by {
            assert(t.ids@[a] != t.ids@[b]);
        }
    }

    /// Two well-formed tables with the same entries hold the same keys.
    pub proof fn lemma_same_entries_same_keys(a: &KeyTable, b: &KeyTable)
        requires
            a.wf(),
            b.wf(),
            a.entry_seq() == b.entry_seq(),
        ensures
            a.key_map() == b.key_map(),
    {
        assert(a.entry_seq().len() == a.ids@.len());
        assert(b.entry_seq().len() == b.ids@.len());
        assert forall|i: int| 0 <= i < a.ids@.len() implies a.ids@[i] == b.ids@[i] by {
            assert(a.entry_seq()[i] == (a.ids@[i], a.keys@[a.ids@[i]]));
            assert(b.entry_seq()[i] == (b.ids@[i], b.keys@[b.ids@[i]]));
        }
        assert(a.ids@ =~= b.ids@);
        assert forall|x: u64| #[trigger] a.keys@.contains_key(x) implies b.keys@.contains_key(x)
            && a.keys@[x] == b.keys@[x] by {
            assert(a.ids@.contains(x));
            let w = choose|w: int| 0 <= w < a.ids@.len() && a.ids@[w] == x;
            assert(a.entry_seq()[w] == (a.ids@[w], a.keys@[a.ids@[w]]));
            assert(b.entry_seq()[w] == (b.ids@[w], b.keys@[b.ids@[w]]));
            assert(b.ids@.contains(x));
        }
        assert forall|x: u64| #[trigger] b.keys@.contains_key(x) implies a.keys@.contains_key(x) by {
            assert(b.ids@.contains(x));
        }
        assert(a.keys@ =~= b.keys@);
    }

    /// Returns every identifier with its key, in the order of `id_list`.
    pub fn entries(&self) -> (r: Vec<(u64, Key)>)
        requires
            self.wf(),
        ensures
            r@.len() == self.id_list().len(),
            forall|i: int| 0 <= i < r@.len() ==> (#[trigger] r@[i]).0 == self.id_list()[i]
                && r@[i].1 == self.key_map()[self.id_list()[i]],
    {
        let mut r: Vec<(u64, Key)> = Vec::new();
        let mut i: usize = 0;
        while i < self.ids.len()
            invariant
                self.wf(),
                i <= self.ids@.len(),
                r@.len() == i,
                forall|j: int| 0 <= j < i ==> (#[trigger] r@[j]).0 == self.ids@[j] && r@[j].1
                    == self.keys@[self.ids@[j]],
            decreases self.ids@.len() - i,
        {
            let id = self.ids[i];
            assert(self.ids@.contains(id));
            let k = match self.keys.get(&id) {
                Some(k) => *k,
                None => [0u8; 32],
            };
            r.push((id, k));
            i += 1;
        }
        r
    }

    /// Rebuilds a table from its entries, with nothing marked rotated; fails when an identifier
    /// occurs twice.
    pub fn from_entries(entries: &Vec<(u64, Key)>) -> (r: Option<Self>)
        ensures
            r is Some <==> entries_unique(entries@),
            r matches Some(t) ==> {
                &&& t.wf()
                &&& t.dirty_ids() == Set::<u64>::empty()
                &&& t.id_list() == entries@.map_values(|e: (u64, Key)| e.0)
                &&& forall|i: int|
                    0 <= i < entries@.len() ==> t.key_map()[#[trigger] entries@[i].0] == entries@[i].1
            },
    {
        let mut t = KeyTable { keys: HashMap::new(), ids: Vec::new(), dirty: Vec::new() };
        let mut i: usize = 0;
        assert(entries@.subrange(0, 0).map_values(|e: (u64, Key)| e.0) =~= Seq::<u64>::empty());
        while i < entries.len()
            invariant
                t.wf(),
                i <= entries@.len(),
                t.dirty@.len() == 0,
                t.ids@ == entries@.subrange(0, i as int).map_values(|e: (u64, Key)| e.0),
                entries_unique(entries@.subrange(0, i as int)),
                forall|j: int| 0 <= j < i ==> t.keys@[#[trigger] entries@[j].0] == entries@[j].1,
            decreases entries@.len() - i,
        {
            let (id, key) = entries[i];
            if t.keys.contains_key(&id) {
                proof {
                    assert(t.ids@.contains(id));
                    let w = choose|w: int| 0 <= w < t.ids@.len() && t.ids@[w] == id;
                    assert(entries@.subrange(0, i as int).map_values(|e: (u64, Key)| e.0)[w] == id);
                    assert(entries@[w].0 == entries@[i as int].0);
                    assert(!entries_unique(entries@)) by {
                        assert(entries@.subrange(0, i as int)[w].0 == id);
                    }
                }
                return None;
            }
            proof {
                assert forall|j: int| 0 <= j < i implies entries@[j].0 != id by {
                    assert(t.ids@[j] == entries@[j].0);
                    assert(t.ids@.contains(entries@[j].0));
                }
            }
            push_fresh(&mut t.ids, id);
            t.keys.insert(id, key);
            proof {
                assert(entries@.subrange(0, i + 1).map_values(|e: (u64, Key)| e.0) =~= entries@.subrange(
                    0,
                    i as int,
                ).map_values(|e: (u64, Key)| e.0).push(id));
                assert forall|a: int, b: int|
                    0 <= a < b < i + 1 implies (#[trigger] entries@.subrange(0, i + 1)[a]).0
                    != (#[trigger] entries@.subrange(0, i + 1)[b]).0 by {
                    if b < i {
                        assert(entries@.subrange(0, i as int)[a].0 != entries@.subrange(0, i as int)[b].0);
                    }
                }
            }
            i += 1;
        }
        proof {
            assert(entries@.subrange(0, entries@.len() as int) =~= entries@);
            assert(t.dirty@.to_set() =~= Set::<u64>::empty());
        }
        Some(t)
    }
}

pub proof fn lemma_push_contains(s: Seq<u64>, x: u64)
    ensures
        forall|y: u64| #[trigger] s.push(x).contains(y) <==> (s.contains(y) || y == x),
{
    assert forall|y: u64| #[trigger] s.push(x).contains(y) <==> (s.contains(y) || y == x) by {
        if s.push(x).contains(y) {
            let w = choose|w: int| 0 <= w < s.len() + 1 && s.push(x)[w] == y;
            if w < s.len() {
                assert(s[w] == y);
            }
        }
        if s.contains(y) {
            let w = choose|w: int| 0 <= w < s.len() && s[w] == y;
            assert(s.push(x)[w] == y);
        }
        if y == x {
            assert(s.push(x)[s.len() as int] == y);
        }
    }
}

/// The bytes of a key table's entries: for each, the identifier's eight little-endian bytes and
/// then the key.
pub open spec fn table_bytes(es: Seq<(u64, Key)>) -> Seq<u8>
    decreases es.len(),
{
    if es.len() == 0 {
        Seq::empty()
    } else {
        table_bytes(es.drop_last()) + le64(es.last().0) + es.last().1@
    }
}

/// The size in bytes of one encoded entry.
pub const ENTRY_SIZE: usize = 40;

pub proof fn lemma_table_bytes_len(es: Seq<(u64, Key)>)
    ensures
        table_bytes(es).len() == 40 * es.len(),
    decreases es.len(),
{
    if es.len() > 0 {
        lemma_table_bytes_len(es.drop_last());
    }
}

proof fn lemma_table_bytes_index(es: Seq<(u64, Key)>, i: int, k: int)
    requires
        0 <= i < es.len(),
        0 <= k < 40,
    ensures
        table_bytes(es)[40 * i + k] == (le64(es[i].0) + es[i].1@)[k],
    decreases es.len(),
{
    lemma_table_bytes_len(es);
    lemma_table_bytes_len(es.drop_last());
    if i < es.len() - 1 {
        lemma_table_bytes_index(es.drop_last(), i, k);
    }
}

/// Two entry sequences with the same bytes are the same.
pub proof fn lemma_table_bytes_injective(a: Seq<(u64, Key)>, b: Seq<(u64, Key)>)
    requires
        table_bytes(a) == table_bytes(b),
    ensures
        a == b,
{
    lemma_table_bytes_len(a);
    lemma_table_bytes_len(b);
    assert forall|i: int| 0 <= i < a.len() implies a[i] == b[i] by {
        assert forall|k: int| 0 <= k < 40 implies (le64(a[i].0) + a[i].1@)[k] == (le64(b[i].0)
            + b[i].1@)[k] by {
            lemma_table_bytes_index(a, i, k);
            lemma_table_bytes_index(b, i, k);
        }
        assert forall|k: int| 0 <= k < 8 implies le64(a[i].0)[k] == le64(b[i].0)[k] by {
            assert((le64(a[i].0) + a[i].1@)[k] == (le64(b[i].0) + b[i].1@)[k]);
        }
        crate::codec::lemma_le64_injective(a[i].0, b[i].0);
        assert forall|k: int| 0 <= k < 32 implies a[i].1@[k] == b[i].1@[k] by {
            assert((le64(a[i].0) + a[i].1@)[8 + k] == (le64(b[i].0) + b[i].1@)[8 + k]);
        }
        assert(a[i].1@ =~= b[i].1@);
    }
    assert(a =~= b);
}

/// Encodes entries as `table_bytes` lays them out.
pub fn encode_entries(es: &Vec<(u64, Key)>) -> (r: Vec<u8>)
    ensures
        r@ == table_bytes(es@),
{
    let mut out: Vec<u8> = Vec::new();
    let mut i: usize = 0;
    while i < es.len()
        invariant
            i <= es@.len(),
            out@ == table_bytes(es@.subrange(0, i as int)),
        decreases es@.len() - i,
    {
        let (id, key) = es[i];
        let ghost before = out@;
        push_u64(&mut out, id);
        let mut j: usize = 0;
        while j < KEY_SIZE
            invariant
                j <= KEY_SIZE,
                out@ == before + le64(id) + key@.subrange(0, j as int),
            decreases KEY_SIZE - j,
        {
            out.push(key[j]);
            assert(key@.subrange(0, j + 1) =~= key@.subrange(0, j as int).push(key@[j as int]));
            j += 1;
        }
        assert(key@.subrange(0, 32) =~= key@);
        assert(es@.subrange(0, i + 1).drop_last() =~= es@.subrange(0, i as int));
        i += 1;
    }
    assert(es@.subrange(0, es@.len() as int) =~= es@);
    out
}

/// Decodes entries laid out as `table_bytes` lays them out; fails when the length is not a
/// multiple of the entry size.
pub fn decode_entries(b: &[u8]) -> (r: Option<Vec<(u64, Key)>>)
    ensures
        r is Some <==> b@.len() % 40 == 0,
        r matches Some(es) ==> table_bytes(es@) == b@,
{
    if b.len() % ENTRY_SIZE != 0 {
        return None;
    }
    let mut es: Vec<(u64, Key)> = Vec::new();
    let mut at: usize = 0;
    while at < b.len()
        invariant
            at <= b@.len(),
            at % 40 == 0,
            b@.len() % 40 == 0,
            table_bytes(es@) == b@.subrange(0, at as int),
        decreases b@.len() - at,
    {
        assert(at + 40 <= b@.len()) by {
            vstd::arithmetic::div_mod::lemma_fundamental_div_mod(at as int, 40);
            vstd::arithmetic::div_mod::lemma_fundamental_div_mod(b@.len() as int, 40);
        }
        let id = read_u64(b, at);
        let mut key: Key = [0u8; KEY_SIZE];
        let mut j: usize = 0;
        while j < KEY_SIZE
            invariant
                j <= KEY_SIZE,
                at + 40 <= b@.len(),
                b@.len() <= usize::MAX,
                forall|k: int| 0 <= k < j ==> key@[k] == b@[at + 8 + k],
            decreases KEY_SIZE - j,
        {
            key[j] = b[at + 8 + j];
            j += 1;
        }
        let ghost before = es@;
        es.push((id, key));
        proof {
            assert(es@.drop_last() =~= before);
            assert(key@ =~= b@.subrange(at + 8, at + 40));
            assert(b@.subrange(0, at + 40) =~= b@.subrange(0, at as int) + b@.subrange(at as int, at + 8)
                + b@.subrange(at + 8, at + 40));
        }
        at += ENTRY_SIZE;
    }
    assert(b@.subrange(0, b@.len() as int) =~= b@);
    Some(es)
}

/// Committing `before` gives `after` and returns `r`: each rotated identifier once, with the
/// keys kept and nothing left marked.
pub open spec fn commits(before: KeyTable, after: KeyTable, r: Seq<u64>) -> bool {
    &&& r.no_duplicates()
    &&& r.to_set() == before.dirty_ids()
    &&& after.dirty_ids() == Set::<u64>::empty()
    &&& after.key_map() == before.key_map()
    &&& after.id_list() == before.id_list()
}

/// A commit right after a commit, with nothing rotated in between, returns nothing and keeps
/// every key.
pub proof fn lemma_commit_idempotent(t0: KeyTable, t1: KeyTable, r1: Seq<u64>, t2: KeyTable, r2: Seq<u64>)
    requires
        commits(t0, t1, r1),
        commits(t1, t2, r2),
    ensures
        r2.len() == 0,
        t2.key_map() == t0.key_map(),
        t2.dirty_ids() == Set::<u64>::empty(),
{
    if r2.len() > 0 {
        assert(r2.to_set().contains(r2[0]));
    }
}

/// The keys that a list of entries gives: each identifier to the key beside it.
pub open spec fn keys_of(es: Seq<(u64, Key)>) -> Map<u64, Key> {
    Map::new(
        |id: u64| exists|i: int| 0 <= i < es.len() && es[i].0 == id,
        |id: u64| es[choose|i: int| 0 <= i < es.len() && es[i].0 == id].1,
    )
}

/// No identifier occurs twice among `entries`.
pub open spec fn entries_unique(entries: Seq<(u64, Key)>) -> bool {
    forall|a: int, b: int|
        0 <= a < b < entries.len() ==> (#[trigger] entries[a]).0 != (#[trigger] entries[b]).0
}

/// Tells whether `v` holds `x`.
pub fn vec_contains(v: &Vec<u64>, x: u64) -> (r: bool)
    ensures
        r == v@.contains(x),
{
    let mut i: usize = 0;
    while i < v.len()
        invariant
            i <= v@.len(),
            forall|j: int| 0 <= j < i ==> v@[j] != x,
        decreases v@.len() - i,
    {
        if v[i] == x {
            return true;
        }
        i += 1;
    }
    false
}

/// Appends `x`, which `v` does not hold yet.
pub fn push_fresh(v: &mut Vec<u64>, x: u64)
    requires
        old(v)@.no_duplicates(),
        !old(v)@.contains(x),
    ensures
        final(v)@ == old(v)@.push(x),
        final(v)@.no_duplicates(),
        final(v)@.to_set() == old(v)@.to_set().insert(x),
        forall|y: u64| #[trigger] final(v)@.contains(y) <==> (old(v)@.contains(y) || y == x),
{
    v.push(x);
    proof {
        let s = old(v)@;
        assert forall|a: int, b: int| 0 <= a < b < v@.len() implies v@[a] != v@[b] by {
            if b == s.len() {
                assert(s.contains(s[a]));
            } else {
                assert(s[a] != s[b]);
            }
        }
        assert forall|y: u64| #[trigger] v@.contains(y) <==> (s.contains(y) || y == x) by {
            if s.contains(y) {
                let w = choose|w: int| 0 <= w < s.len() && s[w] == y;
                assert(v@[w] == y);
            }
            if y == x {
                assert(v@[s.len() as int] == y);
            }
            if v@.contains(y) {
                let w = choose|w: int| 0 <= w < v@.len() && v@[w] == y;
                if w < s.len() {
                    assert(s[w] == y);
                }
            }
        }
        assert(v@.to_set() =~= s.to_set().insert(x));
    }
}

} // verus!
