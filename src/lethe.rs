use crate::blockcrypt::{check_keys_cover, decrypt_blocks, keys_cover, BlockCryptIo};
use crate::codec::{decode_words, encode_words, words_bytes};
use crate::crypt::CryptIo;
use crate::crypto::{apply_keystream, random_key, Key, KEY_SIZE};
use crate::error::Error;
use crate::idalloc::Allocator;
use crate::keys::{entries_unique, keys_of, push_fresh, table_bytes, KeyTable};
use crate::memio::{MemIo, SeekFrom};
use crate::store::MemStore;
use std::collections::HashMap;
use vstd::prelude::*;

verus! {

broadcast use vstd::std_specs::hash::group_hash_axioms;

/// The object holding the master key table.
pub const MASTER_KHF_OBJID: u64 = 0;

/// The object holding the fanouts of object key tables.
pub const OBJECT_KHF_FANOUTS_OBJID: u64 = 1;

/// The object holding the identifier allocator.
pub const ALLOCATOR_OBJID: u64 = 2;

/// The object holding the mappings of objects to their identifiers.
pub const MAPPINGS_OBJID: u64 = 3;

/// The fanout of each level of a key table unless a builder says otherwise.
pub const DEFAULT_FANOUT: u64 = 4;

/// Removes `x` from `v`, which holds it once.
fn remove_id(v: &mut Vec<u64>, x: u64)
    requires
        old(v)@.no_duplicates(),
    ensures
        final(v)@.no_duplicates(),
        forall|y: u64| #[trigger] final(v)@.contains(y) <==> (old(v)@.contains(y) && y != x),
{
    let mut i: usize = 0;
    while i < v.len()
        invariant
            v@ == old(v)@,
            old(v)@.no_duplicates(),
            i <= v@.len(),
            forall|j: int| 0 <= j < i ==> v@[j] != x,
        decreases v@.len() - i,
    {
        if v[i] == x {
            v.remove(i);
            proof {
                let s = old(v)@;
                assert forall|a: int, b: int| 0 <= a < b < v@.len() implies v@[a] != v@[b] by {
                    let a2 = if a < i { a } else { a + 1 };
                    let b2 = if b < i { b } else { b + 1 };
                    assert(s[a2] != s[b2]);
                }
                assert forall|y: u64| #[trigger] v@.contains(y) <==> (s.contains(y) && y != x) by {
                    if s.contains(y) && y != x {
                        let w = choose|w: int| 0 <= w < s.len() && s[w] == y;
                        let w2 = if w < i { w } else { w - 1 };
                        assert(v@[w2] == y);
                    }
                    if v@.contains(y) {
                        let w = choose|w: int| 0 <= w < v@.len() && v@[w] == y;
                        let w2 = if w < i { w } else { w + 1 };
                        assert(s[w2] == y);
                        assert(s[i as int] == x);
                        assert(w2 != i);
                    }
                }
            }
            return;
        }
        i += 1;
    }
}

/// The four objects that hold the committed state.
pub open spec fn is_reserved(id: u64) -> bool {
    id <= 3
}

/// Where an object lives: `map_id` names its ciphertext, `khf_id` its key table's blob and
/// that table's key in the master table.
#[derive(Debug, Clone, Copy, PartialEq, Eq, Structural)]
pub struct MapEntry {
    pub map_id: u64,
    pub khf_id: u64,
}

/// The words that a mapping snapshot holds: for each object, in order, its identifier, its
/// ciphertext identifier and its key table identifier.
pub open spec fn mapping_words(objids: Seq<u64>, m: Map<u64, MapEntry>) -> Seq<u64>
    decreases objids.len(),
{
    if objids.len() == 0 {
        Seq::empty()
    } else {
        let o = objids.last();
        mapping_words(objids.drop_last(), m) + seq![o, m[o].map_id, m[o].khf_id]
    }
}

/// The words that an allocator snapshot holds: the cursor, then the identifiers handed out.
pub open spec fn allocator_words(a: Allocator) -> Seq<u64> {
    seq![a.latest_id()] + a.id_list()
}

/// Encodes the words of a mapping snapshot.
fn mappings_to_words(objids: &Vec<u64>, m: &HashMap<u64, MapEntry>) -> (r: Vec<u64>)
    requires
        forall|o: u64| #[trigger] objids@.contains(o) ==> m@.contains_key(o),
    ensures
        r@ == mapping_words(objids@, m@),
{
    let mut r: Vec<u64> = Vec::new();
    let mut i: usize = 0;
    while i < objids.len()
        invariant
            i <= objids@.len(),
            forall|o: u64| #[trigger] objids@.contains(o) ==> m@.contains_key(o),
            r@ == mapping_words(objids@.subrange(0, i as int), m@),
        decreases objids@.len() - i,
    {
        let o = objids[i];
        assert(objids@.contains(o));
        let e = match m.get(&o) {
            Some(e) => *e,
            None => MapEntry { map_id: 0, khf_id: 0 },
        };
        r.push(o);
        r.push(e.map_id);
        r.push(e.khf_id);
        assert(objids@.subrange(0, i + 1).drop_last() =~= objids@.subrange(0, i as int));
        assert(r@ =~= mapping_words(objids@.subrange(0, i + 1), m@));
        i += 1;
    }
    assert(objids@.subrange(0, objids@.len() as int) =~= objids@);
    r
}

/// Rebuilds mappings from the words of a snapshot; fails when the words are not whole triples,
/// when an object occurs twice, or when an identifier is one of the reserved four.
fn mappings_from_words(w: &Vec<u64>, Ghost(expect): Ghost<(Seq<u64>, Map<u64, MapEntry>)>) -> (r: Option<(Vec<u64>, HashMap<u64, MapEntry>)>)
    ensures
        mappings_valid(expect.0, expect.1) && mapping_words(expect.0, expect.1) == w@ ==> r is Some,
        r matches Some((objids, m)) ==> {
            &&& objids@.no_duplicates()
            &&& forall|o: u64| #[trigger] objids@.contains(o) <==> m@.contains_key(o)
            &&& forall|o: u64| #[trigger]
                m@.contains_key(o) ==> !is_reserved(m@[o].map_id) && !is_reserved(m@[o].khf_id)
            &&& mapping_words(objids@, m@) == w@
        },
{
    let ghost good = mappings_valid(expect.0, expect.1) && mapping_words(expect.0, expect.1) == w@;
    proof {
        if good {
            lemma_mapping_words_len(expect.0, expect.1);
        }
    }
    if w.len() % 3 != 0 {
        return None;
    }
    let mut objids: Vec<u64> = Vec::new();
    let mut m: HashMap<u64, MapEntry> = HashMap::new();
    let mut at: usize = 0;
    while at < w.len()
        invariant
            at <= w@.len(),
            at % 3 == 0,
            good == (mappings_valid(expect.0, expect.1) && mapping_words(expect.0, expect.1) == w@),
            good ==> w@.len() == 3 * expect.0.len(),
            good ==> objids@ == expect.0.subrange(0, (at as int) / 3),
            good ==> forall|o: u64| #[trigger] m@.contains_key(o) ==> m@[o] == expect.1[o],
            w@.len() % 3 == 0,
            objids@.no_duplicates(),
            forall|o: u64| #[trigger] objids@.contains(o) <==> m@.contains_key(o),
            forall|o: u64| #[trigger]
                m@.contains_key(o) ==> !is_reserved(m@[o].map_id) && !is_reserved(m@[o].khf_id),
            mapping_words(objids@, m@) == w@.subrange(0, at as int),
        decreases w@.len() - at,
    {
        assert(at + 3 <= w@.len()) by {
            vstd::arithmetic::div_mod::lemma_fundamental_div_mod(at as int, 3);
            vstd::arithmetic::div_mod::lemma_fundamental_div_mod(w@.len() as int, 3);
        }
        let o = w[at];
        let e = MapEntry { map_id: w[at + 1], khf_id: w[at + 2] };
        proof {
            if good {
                let i: int = (at as int) / 3;
                assert(at == 3 * i);
                lemma_mapping_words_index(expect.0, expect.1, i);
                assert(o == expect.0[i]);
                assert(!objids@.contains(o)) by {
                    if objids@.contains(o) {
                        let x = choose|x: int| 0 <= x < objids@.len() && objids@[x] == o;
                        assert(expect.0[x] == expect.0[i]);
                    }
                }
                assert(expect.0.contains(o));
                assert(e.map_id == expect.1[o].map_id);
                assert(e.khf_id == expect.1[o].khf_id);
                assert(e == expect.1[o]);
                assert(!m@.contains_key(o));
                assert(!is_reserved(e.map_id) && !is_reserved(e.khf_id));
            }
        }
        if m.contains_key(&o) || e.map_id <= 3 || e.khf_id <= 3 {
            return None;
        }
        proof {
            lemma_mapping_words_frame(objids@, m@, o, e);
        }
        let ghost before = objids@;
        push_fresh(&mut objids, o);
        m.insert(o, e);
        proof {
            assert(objids@.drop_last() =~= before);
            assert(w@.subrange(0, at + 3) =~= w@.subrange(0, at as int) + seq![o, e.map_id, e.khf_id]);
            if good {
                assert(objids@ =~= expect.0.subrange(0, (at + 3) as int / 3));
            }
        }
        at += 3;
    }
    assert(w@.subrange(0, w@.len() as int) =~= w@);
    Some((objids, m))
}

/// The objects are listed once each, each has an entry, and no entry names a reserved object.
pub open spec fn mappings_valid(objids: Seq<u64>, m: Map<u64, MapEntry>) -> bool {
    &&& objids.no_duplicates()
    &&& forall|o: u64| #[trigger] objids.contains(o) ==> m.contains_key(o) && !is_reserved(m[o].map_id)
        && !is_reserved(m[o].khf_id)
}

proof fn lemma_mapping_words_index(a: Seq<u64>, m: Map<u64, MapEntry>, i: int)
    requires
        0 <= i < a.len(),
    ensures
        mapping_words(a, m)[3 * i] == a[i],
        mapping_words(a, m)[3 * i + 1] == m[a[i]].map_id,
        mapping_words(a, m)[3 * i + 2] == m[a[i]].khf_id,
    decreases a.len(),
{
    lemma_mapping_words_len(a, m);
    lemma_mapping_words_len(a.drop_last(), m);
    if i < a.len() - 1 {
        lemma_mapping_words_index(a.drop_last(), m, i);
    }
}

/// Adding an object that the list does not hold leaves the words of the list unchanged.
proof fn lemma_mapping_words_frame(objids: Seq<u64>, m: Map<u64, MapEntry>, o: u64, e: MapEntry)
    requires
        !objids.contains(o),
    ensures
        mapping_words(objids, m.insert(o, e)) == mapping_words(objids, m),
    decreases objids.len(),
{
    if objids.len() > 0 {
        assert(!objids.drop_last().contains(o)) by {
            if objids.drop_last().contains(o) {
                let w = choose|w: int| 0 <= w < objids.len() - 1 && objids.drop_last()[w] == o;
                assert(objids[w] == o);
            }
        }
        lemma_mapping_words_frame(objids.drop_last(), m, o, e);
        assert(objids.last() != o) by {
            assert(objids[objids.len() - 1] == objids.last());
        }
    }
}

/// Two lists of objects whose mapping words agree are the same list, with the same entries.
pub proof fn lemma_mapping_words_injective(
    a: Seq<u64>,
    ma: Map<u64, MapEntry>,
    b: Seq<u64>,
    mb: Map<u64, MapEntry>,
)
    requires
        mapping_words(a, ma) == mapping_words(b, mb),
    ensures
        a == b,
        forall|o: u64| #[trigger] a.contains(o) ==> ma[o] == mb[o],
    decreases a.len(),
{
    lemma_mapping_words_len(a, ma);
    lemma_mapping_words_len(b, mb);
    if a.len() > 0 {
        let wa = mapping_words(a, ma);
        let n = wa.len();
        assert(wa.subrange(0, n - 3) == mapping_words(a.drop_last(), ma)) by {
            lemma_mapping_words_len(a.drop_last(), ma);
            assert(wa.subrange(0, n - 3) =~= mapping_words(a.drop_last(), ma));
        }
        assert(wa.subrange(0, n - 3) == mapping_words(b.drop_last(), mb)) by {
            lemma_mapping_words_len(b.drop_last(), mb);
            assert(wa.subrange(0, n - 3) =~= mapping_words(b.drop_last(), mb));
        }
        lemma_mapping_words_injective(a.drop_last(), ma, b.drop_last(), mb);
        assert(wa[n - 3] == a.last() && wa[n - 3] == b.last());
        assert(wa[n - 2] == ma[a.last()].map_id && wa[n - 2] == mb[b.last()].map_id);
        assert(wa[n - 1] == ma[a.last()].khf_id && wa[n - 1] == mb[b.last()].khf_id);
        assert(a =~= a.drop_last().push(a.last()));
        assert(b =~= b.drop_last().push(b.last()));
        assert forall|o: u64| #[trigger] a.contains(o) implies ma[o] == mb[o] by {
            if o != a.last() {
                let w = choose|w: int| 0 <= w < a.len() && a[w] == o;
                if w == a.len() - 1 {
                    assert(a[w] == a.last());
                }
                assert(a.drop_last()[w] == o);
                assert(a.drop_last().contains(o));
            } else {
                assert(ma[o].map_id == mb[o].map_id);
                assert(ma[o].khf_id == mb[o].khf_id);
            }
        }
    } else {
        assert(b.len() == 0);
        assert(a =~= b);
    }
}

proof fn lemma_mapping_words_len(a: Seq<u64>, m: Map<u64, MapEntry>)
    ensures
        mapping_words(a, m).len() == 3 * a.len(),
    decreases a.len(),
{
    if a.len() > 0 {
        lemma_mapping_words_len(a.drop_last(), m);
    }
}

/// Two objects' entries share no identifier.
pub open spec fn ids_disjoint(a: MapEntry, b: MapEntry) -> bool {
    a.map_id != b.map_id && a.map_id != b.khf_id && a.khf_id != b.map_id && a.khf_id != b.khf_id
}

/// Every object's two identifiers are distinct and handed out by the allocator, and no two
/// objects share an identifier.
pub open spec fn mappings_fit(m: Map<u64, MapEntry>, ids: Set<u64>) -> bool {
    &&& forall|o: u64| #[trigger] m.contains_key(o) ==> ids.contains(m[o].map_id) && ids.contains(m[o].khf_id)
        && m[o].map_id != m[o].khf_id
    &&& forall|o1: u64, o2: u64|
        o1 != o2 && #[trigger] m.contains_key(o1) && #[trigger] m.contains_key(o2) ==> ids_disjoint(m[o1], m[o2])
}

/// Tells whether `m`, whose objects `objids` lists, fits the allocator `a`.
fn check_mappings_fit(objids: &Vec<u64>, m: &HashMap<u64, MapEntry>, a: &Allocator) -> (r: bool)
    requires
        forall|o: u64| #[trigger] objids@.contains(o) <==> m@.contains_key(o),
    ensures
        r == mappings_fit(m@, a.ids()),
{
    let mut i: usize = 0;
    while i < objids.len()
        invariant
            i <= objids@.len(),
            forall|o: u64| #[trigger] objids@.contains(o) <==> m@.contains_key(o),
            forall|x: int| 0 <= x < i ==> #[trigger] m@.contains_key(objids@[x]) && a.ids().contains(m@[objids@[x]].map_id)
                && a.ids().contains(m@[objids@[x]].khf_id) && m@[objids@[x]].map_id != m@[objids@[x]].khf_id,
            forall|x: int, y: int|
                0 <= x < i && 0 <= y < i && objids@[x] != objids@[y] ==> ids_disjoint(
                    #[trigger] m@[objids@[x]],
                    #[trigger] m@[objids@[y]],
                ),
        decreases objids@.len() - i,
    {
        let o = objids[i];
        assert(objids@.contains(o));
        let e = match m.get(&o) {
            Some(e) => *e,
            None => MapEntry { map_id: 0, khf_id: 0 },
        };
        assert(e == m@[o]);
        if !a.contains(e.map_id) || !a.contains(e.khf_id) || e.map_id == e.khf_id {
            return false;
        }
        let mut j: usize = 0;
        while j < i
            invariant
                j <= i,
                i < objids@.len(),
                o == objids@[i as int],
                m@.contains_key(o),
                e == m@[o],
                forall|o3: u64| #[trigger] objids@.contains(o3) <==> m@.contains_key(o3),
                forall|x: int| 0 <= x < i ==> #[trigger] m@.contains_key(objids@[x]) && a.ids().contains(m@[objids@[x]].map_id)
                    && a.ids().contains(m@[objids@[x]].khf_id) && m@[objids@[x]].map_id != m@[objids@[x]].khf_id,
                forall|x: int, y: int|
                    0 <= x < i && 0 <= y < i && objids@[x] != objids@[y] ==> ids_disjoint(
                        #[trigger] m@[objids@[x]],
                        #[trigger] m@[objids@[y]],
                    ),
                a.ids().contains(e.map_id) && a.ids().contains(e.khf_id) && e.map_id != e.khf_id,
                forall|y: int| 0 <= y < j && objids@[y] != o ==> ids_disjoint(e, #[trigger] m@[objids@[y]]),
            decreases i - j,
        {
            let o2 = objids[j];
            if o2 != o {
                assert(objids@.contains(o2));
                let e2 = match m.get(&o2) {
                    Some(e2) => *e2,
                    None => MapEntry { map_id: 0, khf_id: 0 },
                };
                assert(e2 == m@[o2]);
                if !(e.map_id != e2.map_id && e.map_id != e2.khf_id && e.khf_id != e2.map_id && e.khf_id
                    != e2.khf_id) {
                    assert(!ids_disjoint(m@[o], m@[o2]));
                    return false;
                }
            }
            j += 1;
        }
        assert(m@.contains_key(objids@[i as int]));
        assert(m@[objids@[i as int]] == e);
        assert forall|x: int| 0 <= x < i + 1 implies #[trigger] m@.contains_key(objids@[x]) && a.ids().contains(
            m@[objids@[x]].map_id,
        ) && a.ids().contains(m@[objids@[x]].khf_id) && m@[objids@[x]].map_id != m@[objids@[x]].khf_id by {
            if x == i {
                assert(objids@[x] == o);
            }
        }
        i += 1;
    }
    proof {
        assert forall|o1: u64, o2: u64|
            o1 != o2 && #[trigger] m@.contains_key(o1) && #[trigger] m@.contains_key(o2) implies ids_disjoint(
            m@[o1],
            m@[o2],
        ) by {
            assert(objids@.contains(o1));
            assert(objids@.contains(o2));
            let x = choose|x: int| 0 <= x < objids@.len() && objids@[x] == o1;
            let y = choose|y: int| 0 <= y < objids@.len() && objids@[y] == o2;
            assert(ids_disjoint(m@[objids@[x]], m@[objids@[y]]));
        }
        assert forall|o: u64| #[trigger] m@.contains_key(o) implies a.ids().contains(m@[o].map_id)
            && a.ids().contains(m@[o].khf_id) && m@[o].map_id != m@[o].khf_id by {
            assert(objids@.contains(o));
            let x = choose|x: int| 0 <= x < objids@.len() && objids@[x] == o;
            assert(m@.contains_key(objids@[x]));
        }
    }
    true
}

/// The default fanouts of a key table.
pub open spec fn default_fanouts() -> Seq<u64> {
    seq![4u64, 4u64, 4u64, 4u64]
}

/// Copies `s` into a vector.
fn copy_words(s: &[u64]) -> (r: Vec<u64>)
    ensures
        r@ == s@,
{
    let mut r: Vec<u64> = Vec::new();
    let mut i: usize = 0;
    while i < s.len()
        invariant
            i <= s@.len(),
            r@ == s@.subrange(0, i as int),
        decreases s@.len() - i,
    {
        r.push(s[i]);
        assert(r@ =~= s@.subrange(0, i + 1));
        i += 1;
    }
    assert(r@ =~= s@);
    r
}

/// Collects the configuration of a storage layer before building it.
pub struct LetheBuilder<const D: usize> {
    master_khf_fanouts: Vec<u64>,
    object_khf_fanouts: Vec<u64>,
}

impl<const D: usize> LetheBuilder<D> {
    /// The fanouts for the master key table.
    pub closed spec fn master_fanouts(&self) -> Seq<u64> {
        self.master_khf_fanouts@
    }

    /// The fanouts for object key tables.
    pub closed spec fn object_fanouts(&self) -> Seq<u64> {
        self.object_khf_fanouts@
    }

    /// Creates a builder with the default fanouts for both kinds of table.
    pub fn new() -> (r: Self)
        ensures
            r.master_fanouts() == default_fanouts(),
            r.object_fanouts() == default_fanouts(),
    {
        let r = LetheBuilder {
            master_khf_fanouts: vec![DEFAULT_FANOUT, DEFAULT_FANOUT, DEFAULT_FANOUT, DEFAULT_FANOUT],
            object_khf_fanouts: vec![DEFAULT_FANOUT, DEFAULT_FANOUT, DEFAULT_FANOUT, DEFAULT_FANOUT],
        };
        assert(r.master_khf_fanouts@ =~= default_fanouts());
        assert(r.object_khf_fanouts@ =~= default_fanouts());
        r
    }

    /// Sets the fanouts for the master key table.
    pub fn master_khf_fanouts(&mut self, fanouts: &[u64]) -> (r: &mut Self)
        ensures
            r.master_fanouts() == fanouts@,
            r.object_fanouts() == old(self).object_fanouts(),
            *final(self) == *final(r),
    {
        self.master_khf_fanouts = copy_words(fanouts);
        self
    }

    /// Sets the fanouts for object key tables.
    pub fn object_khf_fanouts(&mut self, fanouts: &[u64]) -> (r: &mut Self)
        ensures
            r.object_fanouts() == fanouts@,
            r.master_fanouts() == old(self).master_fanouts(),
            *final(self) == *final(r),
    {
        self.object_khf_fanouts = copy_words(fanouts);
        self
    }

    /// Builds a storage layer over `enclave` and `storage` with the fanouts set so far, a fresh
    /// random master key, an empty master key table, and the four reserved identifiers taken.
    pub fn build(&self, enclave: MemIo, storage: MemStore) -> (r: Lethe<D>)
        requires
            D > 0,
        ensures
            r.wf(),
            r.master_fanouts() == self.master_fanouts(),
            r.fanouts() == self.object_fanouts(),
            r.mappings() == Map::<u64, MapEntry>::empty(),
            r.cache() == Map::<u64, KeyTable>::empty(),
            r.master().key_map() == Map::<u64, Key>::empty(),
            r.allocator().ids() == set![0u64, 1u64, 2u64, 3u64],
            r.store() == storage.objects(),
            r.enclave_bytes() == enclave.contents(),
    {
        Lethe::with_fanouts(enclave, storage, self.master_khf_fanouts.clone(), self.object_khf_fanouts.clone())
    }
}

/// The state of a storage layer: a master key table whose keys protect the per-object key
/// tables, a cache of loaded object key tables, the objects' identifiers, and the backing
/// store and enclave, with blocks of `D` bytes.
pub struct Lethe<const D: usize> {
    master_key: Key,
    master_khf: KeyTable,
    master_khf_fanouts: Vec<u64>,
    object_khfs: HashMap<u64, KeyTable>,
    object_khf_fanouts: Vec<u64>,
    allocator: Allocator,
    mappings: HashMap<u64, MapEntry>,
    objids: Vec<u64>,
    enclave: MemIo,
    storage: MemStore,
}

impl<const D: usize> Lethe<D> {
    /// The current master key.
    pub closed spec fn master_key(&self) -> Key {
        self.master_key
    }

    /// The master key table.
    pub closed spec fn master(&self) -> KeyTable {
        self.master_khf
    }

    /// The loaded object key tables, by key table identifier.
    pub closed spec fn cache(&self) -> Map<u64, KeyTable> {
        self.object_khfs@
    }

    /// The fanouts the master key table was configured with.
    pub closed spec fn master_fanouts(&self) -> Seq<u64> {
        self.master_khf_fanouts@
    }

    /// The fanouts given to new object key tables.
    pub closed spec fn fanouts(&self) -> Seq<u64> {
        self.object_khf_fanouts@
    }

    /// The identifier allocator.
    pub closed spec fn allocator(&self) -> Allocator {
        self.allocator
    }

    /// Where each object lives.
    pub closed spec fn mappings(&self) -> Map<u64, MapEntry> {
        self.mappings@
    }

    /// The objects, in the order in which they were created.
    pub closed spec fn objid_list(&self) -> Seq<u64> {
        self.objids@
    }

    /// The bytes of the enclave.
    pub closed spec fn enclave_bytes(&self) -> Seq<u8> {
        self.enclave.contents()
    }

    /// The objects of the backing store.
    pub closed spec fn store(&self) -> Map<u64, Seq<u8>> {
        self.storage.objects()
    }

    pub closed spec fn wf(&self) -> bool {
        &&& D > 0
        &&& self.master_khf.wf()
        &&& self.master_khf.dirty_ids().subset_of(self.master_khf.key_map().dom())
        &&& mappings_fit(self.mappings@, self.allocator.ids())
        &&& self.allocator.wf()
        &&& self.objids@.no_duplicates()
        &&& forall|o: u64| #[trigger] self.objids@.contains(o) <==> self.mappings@.contains_key(o)
        &&& forall|k: u64| #[trigger] self.object_khfs@.contains_key(k) ==> self.object_khfs@[k].wf()
        &&& forall|r: u64| is_reserved(r) ==> #[trigger] self.allocator.ids().contains(r)
        &&& forall|o: u64| #[trigger]
            self.mappings@.contains_key(o) ==> !is_reserved(self.mappings@[o].map_id)
                && !is_reserved(self.mappings@[o].khf_id)
    }

    /// `other` has the same enclave and the same reserved objects as this state.
    pub open spec fn same_image(&self, other: &Self) -> bool {
        &&& other.enclave_bytes() == self.enclave_bytes()
        &&& other.store().restrict(Set::new(|r: u64| is_reserved(r))) == self.store().restrict(
            Set::new(|r: u64| is_reserved(r)),
        )
    }

    /// The plaintext of object `objid`, where its key table is loaded.
    pub open spec fn plaintext(&self, objid: u64) -> Seq<u8> {
        let e = self.mappings()[objid];
        decrypt_blocks(self.store()[e.map_id], self.cache()[e.khf_id].key_map(), D as nat)
    }

    /// The plaintext of the blob of object `objid`'s key table, under the master table's key
    /// for it.
    pub open spec fn table_blob_plain(&self, objid: u64) -> Seq<u8> {
        let k = self.mappings()[objid].khf_id;
        apply_keystream(self.master().key_map()[k]@, self.store()[k])
    }

    /// Object `objid` exists and its key table is loaded, or its blob is there under a key of
    /// the master table and decodes.
    pub open spec fn table_available(&self, objid: u64) -> bool {
        let k = self.mappings()[objid].khf_id;
        &&& self.mappings().contains_key(objid)
        &&& (self.cache().contains_key(k) || (self.master().key_map().contains_key(k)
            && self.store().contains_key(k) && exists|es: Seq<(u64, Key)>|
            table_bytes(es) == self.table_blob_plain(objid) && entries_unique(es)))
    }

    /// The keys of object `objid`'s table: the loaded table's, or those its blob decodes to.
    pub open spec fn object_keys(&self, objid: u64) -> Map<u64, Key> {
        let k = self.mappings()[objid].khf_id;
        if self.cache().contains_key(k) {
            self.cache()[k].key_map()
        } else {
            keys_of(
                choose|es: Seq<(u64, Key)>|
                    table_bytes(es) == self.table_blob_plain(objid) && entries_unique(es),
            )
        }
    }

    /// The plaintext of object `objid` under the keys of its table, loaded or not.
    pub open spec fn object_plaintext(&self, objid: u64) -> Seq<u8> {
        decrypt_blocks(self.store()[self.mappings()[objid].map_id], self.object_keys(objid), D as nat)
    }

    /// Object `objid` can be read and written: its key table is available, its ciphertext
    /// object is there, and the table has a key for every block of it.
    pub open spec fn ready(&self, objid: u64) -> bool {
        &&& self.table_available(objid)
        &&& self.store().contains_key(self.mappings()[objid].map_id)
        &&& keys_cover(
            self.store()[self.mappings()[objid].map_id].len(),
            self.object_keys(objid),
            D as nat,
        )
    }

    /// Object `objid` exists, its key table is loaded, and every block of it has a key.
    pub open spec fn is_loaded(&self, objid: u64) -> bool {
        let e = self.mappings()[objid];
        &&& self.mappings().contains_key(objid)
        &&& self.cache().contains_key(e.khf_id)
        &&& self.store().contains_key(e.map_id)
        &&& keys_cover(self.store()[e.map_id].len(), self.cache()[e.khf_id].key_map(), D as nat)
    }

    /// The reserved objects and the enclave hold the committed image of this state: each
    /// snapshot encrypted under the master key, and the master key in the enclave.
    pub open spec fn image_committed(&self) -> bool {
        self.image_in(self.store(), self.enclave_bytes())
    }

    /// A backing store holding `store` and an enclave holding `enclave` hold the committed
    /// image of this state.
    pub open spec fn image_in(&self, store: Map<u64, Seq<u8>>, enclave: Seq<u8>) -> bool {
        let k = self.master_key()@;
        &&& enclave.len() >= KEY_SIZE
        &&& enclave.subrange(0, KEY_SIZE as int) == k
        &&& store.contains_key(MASTER_KHF_OBJID)
        &&& store[MASTER_KHF_OBJID] == apply_keystream(k, table_bytes(self.master().entry_seq()))
        &&& store.contains_key(OBJECT_KHF_FANOUTS_OBJID)
        &&& store[OBJECT_KHF_FANOUTS_OBJID] == apply_keystream(k, words_bytes(self.fanouts()))
        &&& store.contains_key(ALLOCATOR_OBJID)
        &&& store[ALLOCATOR_OBJID] == apply_keystream(k, words_bytes(allocator_words(self.allocator())))
        &&& store.contains_key(MAPPINGS_OBJID)
        &&& store[MAPPINGS_OBJID] == apply_keystream(
            k,
            words_bytes(mapping_words(self.objid_list(), self.mappings())),
        )
    }

    /// Creates a storage layer over `enclave` and `storage` with a fresh random master key, an
    /// empty master key table, the default fanouts, and the four reserved identifiers taken.
    pub fn new(enclave: MemIo, storage: MemStore) -> (r: Self)
        requires
            D > 0,
        ensures
            r.wf(),
            r.master_fanouts() == default_fanouts(),
            r.fanouts() == default_fanouts(),
            r.mappings() == Map::<u64, MapEntry>::empty(),
            r.cache() == Map::<u64, KeyTable>::empty(),
            r.master().key_map() == Map::<u64, Key>::empty(),
            r.allocator().ids() == set![0u64, 1u64, 2u64, 3u64],
            r.store() == storage.objects(),
            r.enclave_bytes() == enclave.contents(),
    {
        let fanouts = vec![DEFAULT_FANOUT, DEFAULT_FANOUT, DEFAULT_FANOUT, DEFAULT_FANOUT];
        let master_fanouts = vec![DEFAULT_FANOUT, DEFAULT_FANOUT, DEFAULT_FANOUT, DEFAULT_FANOUT];
        assert(fanouts@ =~= default_fanouts());
        assert(master_fanouts@ =~= default_fanouts());
        Self::with_fanouts(enclave, storage, master_fanouts, fanouts)
    }

    /// Returns a builder with the default fanouts.
    pub fn options() -> (r: LetheBuilder<D>)
        ensures
            r.master_fanouts() == default_fanouts(),
            r.object_fanouts() == default_fanouts(),
    {
        LetheBuilder::new()
    }

    fn with_fanouts(enclave: MemIo, storage: MemStore, master_fanouts: Vec<u64>, fanouts: Vec<u64>) -> (r: Self)
        requires
            D > 0,
        ensures
            r.wf(),
            r.master_fanouts() == master_fanouts@,
            r.fanouts() == fanouts@,
            r.mappings() == Map::<u64, MapEntry>::empty(),
            r.cache() == Map::<u64, KeyTable>::empty(),
            r.master().key_map() == Map::<u64, Key>::empty(),
            r.allocator().ids() == set![0u64, 1u64, 2u64, 3u64],
            r.store() == storage.objects(),
            r.enclave_bytes() == enclave.contents(),
    {
        let mut allocator = Allocator::new();
        let _ = allocator.reserve(MASTER_KHF_OBJID);
        let _ = allocator.reserve(OBJECT_KHF_FANOUTS_OBJID);
        let _ = allocator.reserve(ALLOCATOR_OBJID);
        let _ = allocator.reserve(MAPPINGS_OBJID);
        assert(allocator.ids() =~= set![0u64, 1u64, 2u64, 3u64]);
        let r = Lethe {
            master_key: random_key(),
            master_khf: KeyTable::new(),
            master_khf_fanouts: master_fanouts,
            object_khfs: HashMap::new(),
            object_khf_fanouts: fanouts,
            allocator,
            mappings: HashMap::new(),
            objids: Vec::new(),
            enclave,
            storage,
        };
        r
    }

    /// Returns where object `objid` lives.
    pub fn get_khf_mapping(&self, objid: u64) -> (r: Option<MapEntry>)
        ensures
            r == self.mappings().get(objid),
    {
        match self.mappings.get(&objid) {
            Some(e) => Some(*e),
            None => None,
        }
    }

    /// Returns the enclave.
    pub fn enclave(&self) -> (r: &MemIo)
        ensures
            r.contents() == self.enclave_bytes(),
    {
        &self.enclave
    }

    /// Returns the backing store.
    pub fn storage(&self) -> (r: &MemStore)
        ensures
            r.objects() == self.store(),
    {
        &self.storage
    }

    /// Returns the key table of object `objid`, loading it first where it is not loaded.
    /// Fails as `read` does when it cannot be loaded.
    pub fn get_khf(&mut self, objid: u64) -> (r: Result<&KeyTable, Error>)
        requires
            old(self).wf(),
        ensures
            r == Err::<&KeyTable, Error>(Error::MissingKhf) <==> !old(self).mappings().contains_key(objid),
            old(self).table_available(objid) ==> (r matches Ok(t) && t.key_map() == old(self).object_keys(
                objid,
            )),
    {
        let e = self.load_khf(objid)?;
        match self.object_khfs.get(&e.khf_id) {
            Some(t) => Ok(t),
            None => Err(Error::Unknown),
        }
    }

    /// Gives back the enclave and the backing store.
    pub fn into_parts(self) -> (r: (MemIo, MemStore))
        ensures
            r.0.contents() == self.enclave_bytes(),
            r.1.objects() == self.store(),
    {
        (self.enclave, self.storage)
    }

    /// Creates object `objid`: takes two fresh identifiers, installs an empty key table for it,
    /// marks that table for the next commit, and creates its ciphertext object. Fails with
    /// `Alloc`, changing nothing, when fewer than two identifiers are free.
    pub fn create(&mut self, objid: u64) -> (r: Result<(), Error>)
        requires
            old(self).wf(),
        ensures
            final(self).wf(),
            old(self).same_image(&*final(self)),
            r is Err <==> !(exists|a: u64, b: u64|
                a != b && !old(self).allocator().ids().contains(a) && !old(self).allocator().ids().contains(b)),
            r is Err ==> r == Err::<(), Error>(Error::Alloc) && final(self).mappings() == old(self).mappings()
                && final(self).allocator().ids() == old(self).allocator().ids(),
            r is Ok ==> {
                let e = final(self).mappings()[objid];
                &&& final(self).mappings() == old(self).mappings().insert(objid, e)
                &&& e.map_id != e.khf_id
                &&& !old(self).allocator().ids().contains(e.map_id)
                &&& !old(self).allocator().ids().contains(e.khf_id)
                &&& final(self).allocator().ids() == old(self).allocator().ids().insert(e.map_id).insert(e.khf_id)
                &&& final(self).store() == old(self).store().insert(e.map_id, Seq::<u8>::empty())
                &&& final(self).cache() == old(self).cache().insert(e.khf_id, final(self).cache()[e.khf_id])
                &&& final(self).cache()[e.khf_id].key_map() == Map::<u64, Key>::empty()
                &&& final(self).master().dirty_ids() == old(self).master().dirty_ids().insert(e.khf_id)
                &&& forall|o: u64| #[trigger] old(self).mappings().contains_key(o) ==> old(self).mappings()[o].map_id
                    != e.map_id && old(self).mappings()[o].map_id != e.khf_id && old(self).mappings()[o].khf_id
                    != e.map_id && old(self).mappings()[o].khf_id != e.khf_id
                &&& final(self).is_loaded(objid)
                &&& final(self).plaintext(objid) == Seq::<u8>::empty()
            },
    {
        let ghost ids0 = self.allocator.ids();
        let map_id = match self.allocator.allocate() {
            Ok(id) => id,
            Err(e) => {
                assert(forall|a: u64| ids0.contains(a));
                return Err(e);
            },
        };
        let khf_id = match self.allocator.allocate() {
            Ok(id) => id,
            Err(e) => {
                proof {
                    assert forall|a: u64, b: u64|
                        a != b && !ids0.contains(a) && !ids0.contains(b) implies false by {
                        if a != map_id {
                            assert(self.allocator.ids().contains(a));
                        } else {
                            assert(self.allocator.ids().contains(b));
                        }
                    }
                }
                self.allocator.dealloc(map_id);
                assert(self.allocator.ids() =~= ids0);
                return Err(e);
            },
        };
        assert(!ids0.contains(map_id) && !ids0.contains(khf_id) && map_id != khf_id);
        if !self.mappings.contains_key(&objid) {
            push_fresh(&mut self.objids, objid);
        }
        let entry = MapEntry { map_id, khf_id };
        self.mappings.insert(objid, entry);
        self.object_khfs.insert(khf_id, KeyTable::new());
        self.master_khf.update(khf_id);
        self.storage.create(map_id);
        proof {
            assert(self.store().restrict(Set::new(|r: u64| is_reserved(r))) =~= old(self).store().restrict(
                Set::new(|r: u64| is_reserved(r)),
            ));
            assert(self.store()[map_id].len() == 0);
            assert(self.plaintext(objid) =~= Seq::<u8>::empty());
            assert(old(self).allocator().ids() == ids0);
            assert(map_id != khf_id && !old(self).allocator().ids().contains(map_id)
                && !old(self).allocator().ids().contains(khf_id));
        }
        Ok(())
    }

    /// Removes object `objid`: its mapping, its loaded key table, its two identifiers and its
    /// ciphertext object. Nothing changes when there is no such object.
    pub fn destroy(&mut self, objid: u64) -> (r: Result<(), Error>)
        requires
            old(self).wf(),
        ensures
            final(self).wf(),
            r is Ok,
            old(self).same_image(&*final(self)),
            final(self).mappings() == old(self).mappings().remove(objid),
            old(self).mappings().contains_key(objid) ==> {
                let e = old(self).mappings()[objid];
                &&& final(self).allocator().ids() == old(self).allocator().ids().remove(e.map_id).remove(e.khf_id)
                &&& final(self).store() == old(self).store().remove(e.map_id)
                &&& final(self).cache() == old(self).cache().remove(e.khf_id)
            },
            !old(self).mappings().contains_key(objid) ==> {
                &&& final(self).allocator() == old(self).allocator()
                &&& final(self).store() == old(self).store()
                &&& final(self).cache() == old(self).cache()
                &&& final(self).master() == old(self).master()
                &&& final(self).master_key() == old(self).master_key()
                &&& final(self).objid_list() == old(self).objid_list()
                &&& final(self).fanouts() == old(self).fanouts()
                &&& final(self).enclave_bytes() == old(self).enclave_bytes()
            },
    {
        match self.mappings.remove(&objid) {
            Some(entry) => {
                remove_id(&mut self.objids, objid);
                self.allocator.dealloc(entry.map_id);
                self.allocator.dealloc(entry.khf_id);
                self.object_khfs.remove(&entry.khf_id);
                self.storage.destroy(entry.map_id);
                proof {
                    assert(self.store().restrict(Set::new(|r: u64| is_reserved(r))) =~= old(self).store().restrict(
                        Set::new(|r: u64| is_reserved(r)),
                    ));
                }
                Ok(())
            },
            None => {
                assert(self.mappings@ =~= old(self).mappings@.remove(objid));
                Ok(())
            },
        }
    }

    /// Makes sure that the key table of object `objid` is loaded: when it is not, decrypts its
    /// blob under the master table's key for it and decodes it. Fails with `MissingKhf` when
    /// there is no such object, with `Khf` when the master table has no key for the blob, with
    /// `Io` when the blob is missing, and with `Serde` when it does not decode.
    fn load_khf(&mut self, objid: u64) -> (r: Result<MapEntry, Error>)
        requires
            old(self).wf(),
        ensures
            final(self).wf(),
            old(self).same_image(&*final(self)),
            final(self).mappings() == old(self).mappings(),
            final(self).objid_list() == old(self).objid_list(),
            final(self).store() == old(self).store(),
            final(self).master() == old(self).master(),
            final(self).master_key() == old(self).master_key(),
            final(self).allocator() == old(self).allocator(),
            final(self).fanouts() == old(self).fanouts(),
            r is Err ==> final(self).cache() == old(self).cache(),
            old(self).mappings().contains_key(objid) <==> !(r == Err::<MapEntry, Error>(Error::MissingKhf)),
            old(self).mappings().contains_key(objid) && old(self).cache().contains_key(
                old(self).mappings()[objid].khf_id,
            ) ==> r is Ok && final(self).cache() == old(self).cache(),
            old(self).table_available(objid) ==> r is Ok,
            r matches Ok(e) ==> {
                &&& final(self).cache()[e.khf_id].key_map() == old(self).object_keys(objid)
                &&& !old(self).cache().contains_key(e.khf_id) ==> table_bytes(
                    final(self).cache()[e.khf_id].entry_seq(),
                ) == old(self).table_blob_plain(objid) && final(self).cache()[e.khf_id].dirty_ids()
                    == Set::<u64>::empty()
                &&& old(self).ready(objid) ==> final(self).is_loaded(objid) && final(self).plaintext(objid)
                    == old(self).object_plaintext(objid)
                &&& e == old(self).mappings()[objid]
                &&& final(self).cache().contains_key(e.khf_id)
                &&& final(self).cache().remove(e.khf_id) == old(self).cache().remove(e.khf_id)
                &&& old(self).cache().contains_key(e.khf_id) ==> final(self).cache()[e.khf_id]
                    == old(self).cache()[e.khf_id]
            },
    {
        let entry = match self.mappings.get(&objid) {
            Some(e) => *e,
            None => {
                return Err(Error::MissingKhf);
            },
        };
        if self.object_khfs.contains_key(&entry.khf_id) {
            return Ok(entry);
        }
        let key = match self.master_khf.derive(entry.khf_id) {
            Some(k) => k,
            None => {
                return Err(Error::Khf);
            },
        };
        let blob = match self.storage.get(entry.khf_id) {
            Some(b) => b,
            None => {
                return Err(Error::Io);
            },
        };
        let plain = CryptIo::unseal(&key, blob);
        let table = match KeyTable::decode(plain.as_slice()) {
            Some(t) => t,
            None => {
                return Err(Error::Serde);
            },
        };
        proof {
            if old(self).table_available(objid) {
                let es = choose|es: Seq<(u64, Key)>|
                    table_bytes(es) == old(self).table_blob_plain(objid) && entries_unique(es);
                crate::keys::lemma_table_bytes_injective(es, table.entry_seq());
            }
            KeyTable::lemma_entries_unique(&table);
            assert(table_bytes(table.entry_seq()) == old(self).table_blob_plain(objid)
                && entries_unique(table.entry_seq()));
            let es = choose|es: Seq<(u64, Key)>|
                table_bytes(es) == old(self).table_blob_plain(objid) && entries_unique(es);
            crate::keys::lemma_table_bytes_injective(es, table.entry_seq());
            KeyTable::lemma_keys_of_entries(&table);
        }
        self.object_khfs.insert(entry.khf_id, table);
        assert(self.object_khfs@.remove(entry.khf_id) =~= old(self).object_khfs@.remove(entry.khf_id));
        Ok(entry)
    }

    /// Takes the key table and the ciphertext of a loaded object out of the state.
    fn open_object(&mut self, e: MapEntry) -> (r: Result<BlockCryptIo<D>, Error>)
        requires
            old(self).wf(),
            old(self).cache().contains_key(e.khf_id),
        ensures
            final(self).wf(),
            r is Err ==> *final(self) == *old(self) && (r == Err::<BlockCryptIo<D>, Error>(Error::Io)
                || r == Err::<BlockCryptIo<D>, Error>(Error::Khf)),
            r is Err <==> !old(self).store().contains_key(e.map_id) || !keys_cover(
                old(self).store()[e.map_id].len(),
                old(self).cache()[e.khf_id].key_map(),
                D as nat,
            ),
            r matches Ok(io) ==> {
                &&& io.wf()
                &&& io.ciphertext() == old(self).store()[e.map_id]
                &&& io.keys() == old(self).cache()[e.khf_id].key_map()
                &&& io.dirty() == old(self).cache()[e.khf_id].dirty_ids()
                &&& io.position() == 0
                &&& final(self).store() == old(self).store().remove(e.map_id)
                &&& final(self).cache() == old(self).cache().remove(e.khf_id)
                &&& final(self).mappings() == old(self).mappings()
                &&& final(self).objid_list() == old(self).objid_list()
                &&& final(self).master() == old(self).master()
                &&& final(self).master_key() == old(self).master_key()
                &&& final(self).allocator() == old(self).allocator()
                &&& final(self).fanouts() == old(self).fanouts()
                &&& final(self).enclave_bytes() == old(self).enclave_bytes()
            },
    {
        let bytes = match self.storage.get(e.map_id) {
            Some(b) => b,
            None => {
                return Err(Error::Io);
            },
        };
        let ok = match self.object_khfs.get(&e.khf_id) {
            Some(t) => check_keys_cover(bytes.len(), t, D),
            None => false,
        };
        if !ok {
            return Err(Error::Khf);
        }
        let table = match self.object_khfs.remove(&e.khf_id) {
            Some(t) => t,
            None => KeyTable::new(),
        };
        let _ = self.storage.take(e.map_id);
        Ok(BlockCryptIo::new(MemIo::from_vec(bytes), table))
    }

    /// Puts the key table and the ciphertext of an object back into the state.
    fn close_object(&mut self, e: MapEntry, io: BlockCryptIo<D>)
        requires
            old(self).wf(),
            io.wf(),
        ensures
            final(self).wf(),
            final(self).store() == old(self).store().insert(e.map_id, io.ciphertext()),
            final(self).cache().contains_key(e.khf_id),
            final(self).cache().remove(e.khf_id) == old(self).cache().remove(e.khf_id),
            final(self).cache()[e.khf_id].key_map() == io.keys(),
            final(self).cache()[e.khf_id].dirty_ids() == io.dirty(),
            keys_cover(
                final(self).store()[e.map_id].len(),
                final(self).cache()[e.khf_id].key_map(),
                D as nat,
            ),
            final(self).mappings() == old(self).mappings(),
            final(self).objid_list() == old(self).objid_list(),
            final(self).master() == old(self).master(),
            final(self).master_key() == old(self).master_key(),
            final(self).allocator() == old(self).allocator(),
            final(self).fanouts() == old(self).fanouts(),
            final(self).enclave_bytes() == old(self).enclave_bytes(),
    {
        let (mio, table) = io.into_parts();
        assert(table.wf());
        self.storage.put(e.map_id, mio.into_inner());
        self.object_khfs.insert(e.khf_id, table);
        assert(self.object_khfs@.remove(e.khf_id) =~= old(self).object_khfs@.remove(e.khf_id));
    }

    /// Reads the plaintext of object `objid` from `offset` into `buf`, as many bytes as fit and
    /// as the object holds, and returns how many it read; at or past the end it reads nothing.
    /// Loads the object's key table first where it is not loaded. Fails with `MissingKhf` when
    /// there is no such object.
    pub fn read(&mut self, objid: u64, offset: u64, buf: &mut Vec<u8>) -> (r: Result<usize, Error>)
        requires
            old(self).wf(),
        ensures
            final(self).wf(),
            old(self).same_image(&*final(self)),
            final(self).mappings() == old(self).mappings(),
            final(self).master() == old(self).master(),
            final(self).allocator() == old(self).allocator(),
            r == Err::<usize, Error>(Error::MissingKhf) <==> !old(self).mappings().contains_key(objid),
            r matches Ok(n) ==> {
                let p = final(self).plaintext(objid);
                &&& final(self).is_loaded(objid)
                &&& n == (if offset >= p.len() {
                    0
                } else {
                    vstd::math::min(old(buf)@.len() as int, p.len() - offset)
                })
                &&& forall|k: int| 0 <= k < n ==> final(buf)@[k] == p[offset + k]
                &&& forall|k: int| n <= k < old(buf)@.len() ==> final(buf)@[k] == old(buf)@[k]
                &&& final(buf)@.len() == old(buf)@.len()
            },
            old(self).ready(objid) && offset <= usize::MAX ==> {
                &&& r is Ok
                &&& final(self).store() == old(self).store()
                &&& final(self).plaintext(objid) == old(self).object_plaintext(objid)
            },
    {
        let e = self.load_khf(objid)?;
        let mut io = self.open_object(e)?;
        if offset > usize::MAX as u64 {
            self.close_object(e, io);
            proof {
                assert(self.store().restrict(Set::new(|r: u64| is_reserved(r))) =~= old(self).store().restrict(
                    Set::new(|r: u64| is_reserved(r)),
                ));
            }
            return Err(Error::Io);
        }
        let _ = io.seek(SeekFrom::Start(offset));
        let ghost p = io.plaintext();
        let n = io.read(buf);
        self.close_object(e, io);
        proof {
            assert(self.plaintext(objid) == p);
            assert(self.store() =~= old(self).store());
            assert(self.store().restrict(Set::new(|r: u64| is_reserved(r))) =~= old(self).store().restrict(
                Set::new(|r: u64| is_reserved(r)),
            ));
        }
        Ok(n)
    }

    /// Writes `data` as plaintext into object `objid` at `offset` and returns how many bytes it
    /// wrote. Marks the object's key table for the next commit; every block the write touches
    /// is re-encrypted under a rotated key; a write past the end first fills the gap with
    /// zero bytes. Loads the
    /// object's key table first where it is not loaded. Fails with `MissingKhf` when there is
    /// no such object, and with `Io` where the end of the write would not fit in memory.
    pub fn write(&mut self, objid: u64, offset: u64, data: &[u8]) -> (r: Result<usize, Error>)
        requires
            old(self).wf(),
        ensures
            final(self).wf(),
            old(self).same_image(&*final(self)),
            final(self).mappings() == old(self).mappings(),
            final(self).allocator() == old(self).allocator(),
            r == Err::<usize, Error>(Error::MissingKhf) <==> !old(self).mappings().contains_key(objid),
            r is Ok ==> final(self).is_loaded(objid),
            old(self).ready(objid) && offset + data@.len() + D <= usize::MAX ==> {
                let p = old(self).object_plaintext(objid);
                let e = old(self).mappings()[objid];
                &&& final(self).is_loaded(objid)
                &&& final(self).master().dirty_ids() == old(self).master().dirty_ids().insert(e.khf_id)
                &&& r == Ok::<usize, Error>(data.len())
                &&& final(self).plaintext(objid) == crate::blockcrypt::written(p, offset as int, data@)
                &&& forall|id: u64| id != e.map_id ==> #[trigger] final(self).store().contains_key(id)
                    == old(self).store().contains_key(id) && final(self).store()[id] == old(self).store()[id]
            },
    {
        let e = self.load_khf(objid)?;
        self.master_khf.update(e.khf_id);
        let mut io = self.open_object(e)?;
        if offset > usize::MAX as u64 || data.len() > usize::MAX - D || offset as usize > usize::MAX
            - D - data.len() {
            self.close_object(e, io);
            proof {
                assert(self.store().restrict(Set::new(|r: u64| is_reserved(r))) =~= old(self).store().restrict(
                    Set::new(|r: u64| is_reserved(r)),
                ));
            }
            return Err(Error::Io);
        }
        let _ = io.seek(SeekFrom::Start(offset));
        let n = io.write(data);
        self.close_object(e, io);
        proof {
            assert forall|id: u64| id != e.map_id implies #[trigger] self.store().contains_key(id)
                == old(self).store().contains_key(id) && self.store()[id] == old(self).store()[id] by {}
            assert(self.store().restrict(Set::new(|r: u64| is_reserved(r))) =~= old(self).store().restrict(
                Set::new(|r: u64| is_reserved(r)),
            ));
        }
        Ok(n)
    }

    /// Returns the size in bytes of object `objid`. Fails with `MissingKhf` when there is no
    /// such object and with `Io` when its ciphertext object is missing.
    pub fn get_info(&self, objid: u64) -> (r: Result<u64, Error>)
        ensures
            r == Err::<u64, Error>(Error::MissingKhf) <==> !self.mappings().contains_key(objid),
            r matches Ok(n) ==> self.store().contains_key(self.mappings()[objid].map_id) && n
                == self.store()[self.mappings()[objid].map_id].len(),
            self.mappings().contains_key(objid) && self.store().contains_key(
                self.mappings()[objid].map_id,
            ) ==> r is Ok,
    {
        let e = match self.mappings.get(&objid) {
            Some(e) => *e,
            None => {
                return Err(Error::MissingKhf);
            },
        };
        match self.storage.size(e.map_id) {
            Some(n) => Ok(n as u64),
            None => Err(Error::Io),
        }
    }

    /// Sets the size of object `objid` to `size` bytes. Growing appends zero bytes through the
    /// block encryption. Shrinking first rewrites the block that the new end falls in, so that
    /// its key rotates, then drops the keys of the blocks past the new end and cuts the
    /// ciphertext. Fails with `MissingKhf` when there is no such object.
    pub fn truncate(&mut self, objid: u64, size: u64) -> (r: Result<(), Error>)
        requires
            old(self).wf(),
        ensures
            final(self).wf(),
            old(self).same_image(&*final(self)),
            final(self).mappings() == old(self).mappings(),
            r == Err::<(), Error>(Error::MissingKhf) <==> !old(self).mappings().contains_key(objid),
            old(self).ready(objid) && size + D <= usize::MAX ==> {
                let p = old(self).object_plaintext(objid);
                let e = old(self).mappings()[objid];
                &&& r is Ok
                &&& final(self).is_loaded(objid)
                &&& final(self).plaintext(objid) == crate::memio::zero_pad(p, size as int).subrange(
                    0,
                    size as int,
                )
                &&& size < p.len() ==> final(self).cache()[e.khf_id].key_map().dom() == Set::new(
                    |b: u64| (b as int) * (D as int) < size,
                )
            },
    {
        let e = self.load_khf(objid)?;
        let len = match self.storage.size(e.map_id) {
            Some(n) => n,
            None => {
                return Err(Error::Io);
            },
        };
        if size > usize::MAX as u64 || size as usize > usize::MAX - D {
            return Err(Error::Io);
        }
        let size = size as usize;
        let ghost plain_before = self.plaintext(objid);
        if size >= len {
            if size > len {
                let grow = size - len;
                let zeros = vec![0u8; grow];
                let _ = self.write(objid, len as u64, zeros.as_slice())?;
                proof {
                    if old(self).ready(objid) {
                        assert(self.plaintext(objid) =~= crate::memio::zero_pad(plain_before, size as int).subrange(
                            0,
                            size as int,
                        ));
                    }
                }
            } else {
                proof {
                    if old(self).ready(objid) {
                        assert(plain_before =~= crate::memio::zero_pad(plain_before, size as int).subrange(0, size as int));
                    }
                }
            }
            return Ok(());
        }
        let extra = size % D;
        assert(extra <= size) by {
            vstd::arithmetic::div_mod::lemma_mod_bound(size as int, D as int);
            vstd::arithmetic::div_mod::lemma_mod_decreases(size as nat, D as nat);
        }
        let start = size - extra;
        if extra > 0 {
            let mut buf = vec![0u8; extra];
            let _ = self.read(objid, start as u64, &mut buf)?;
            let _ = self.write(objid, start as u64, buf.as_slice())?;
            proof {
                if old(self).ready(objid) {
                    assert(self.plaintext(objid) =~= plain_before);
                }
            }
        }
        let nkeys: u64 = if extra > 0 {
            (size / D) as u64 + 1
        } else {
            (size / D) as u64
        };
        let ghost mid = self.plaintext(objid);
        let ghost keys_mid = self.cache()[e.khf_id].key_map();
        let ghost store_mid = self.store();
        let mut table = match self.object_khfs.remove(&e.khf_id) {
            Some(t) => t,
            None => KeyTable::new(),
        };
        table.truncate(nkeys);
        self.object_khfs.insert(e.khf_id, table);
        let _ = self.storage.truncate(e.map_id, size);
        proof {
            assert(self.store().restrict(Set::new(|r: u64| is_reserved(r))) =~= old(self).store().restrict(
                Set::new(|r: u64| is_reserved(r)),
            ));
            if old(self).ready(objid) {
                let keys1 = self.cache()[e.khf_id].key_map();
                let d = D as int;
                let sz = size as int;
                assert forall|b: u64| (b as int) < nkeys <==> #[trigger] ((b as int) * d) < sz by {
                    vstd::arithmetic::div_mod::lemma_fundamental_div_mod(sz, d);
                    if (b as int) < nkeys {
                        if (b as int) < sz / d {
                            assert((b as int) * d <= (sz / d - 1) * d) by (nonlinear_arith)
                                requires
                                    (b as int) <= sz / d - 1,
                                    d > 0,
                            ;
                            assert((sz / d - 1) * d == d * (sz / d) - d) by (nonlinear_arith);
                        } else {
                            assert((b as int) * d == d * (sz / d)) by (nonlinear_arith)
                                requires
                                    (b as int) == sz / d,
                            ;
                        }
                    } else {
                        assert((b as int) * d >= nkeys * d) by (nonlinear_arith)
                            requires
                                (b as int) >= nkeys,
                                d > 0,
                        ;
                        assert(nkeys * d >= sz) by (nonlinear_arith)
                            requires
                                sz == d * (sz / d) + sz % d,
                                nkeys == (if sz % d > 0 { sz / d + 1 } else { sz / d }),
                                sz % d < d,
                        ;
                    }
                }
                assert forall|b: u64| (b as int) * d < sz implies #[trigger] keys_mid.contains_key(b) by {
                    assert((b as int) * d < mid.len());
                }
                assert(keys1.dom() =~= Set::new(|b: u64| (b as int) * (D as int) < sz));
                assert(self.store()[e.map_id] =~= store_mid[e.map_id].subrange(0, sz));
                assert forall|i: int| 0 <= i < sz implies #[trigger] self.plaintext(objid)[i] == mid[i] by {
                    vstd::arithmetic::div_mod::lemma_fundamental_div_mod(i, d);
                    let c = i / d;
                    assert(c * d <= i) by (nonlinear_arith)
                        requires
                            i == d * (i / d) + i % d,
                            c == i / d,
                            i % d >= 0,
                    ;
                    assert(c >= 0) by (nonlinear_arith)
                        requires
                            i >= 0,
                            d > 0,
                            c == i / d,
                    ;
                    assert(c < 0x1_0000_0000_0000_0000) by (nonlinear_arith)
                        requires
                            c * d <= i,
                            i < sz,
                            sz <= usize::MAX,
                            d > 0,
                            c >= 0,
                    ;
                    assert(((c as u64) as int) * d < sz);
                    assert(keys1.contains_key(c as u64));
                }
                assert(self.plaintext(objid) =~= crate::memio::zero_pad(plain_before, sz).subrange(
                    0,
                    sz,
                ));
            }
        }
        Ok(())
    }

    /// The state was loaded from a backing store holding `store` and an enclave holding
    /// `enclave`: the master key is the enclave's first bytes, each snapshot decodes from its
    /// reserved object decrypted under it, and no object key table is loaded.
    pub open spec fn loaded_from(&self, store: Map<u64, Seq<u8>>, enclave: Seq<u8>) -> bool {
        let k = self.master_key()@;
        &&& enclave.len() >= KEY_SIZE
        &&& k == enclave.subrange(0, KEY_SIZE as int)
        &&& store.contains_key(MASTER_KHF_OBJID)
        &&& table_bytes(self.master().entry_seq()) == apply_keystream(k, store[MASTER_KHF_OBJID])
        &&& store.contains_key(OBJECT_KHF_FANOUTS_OBJID)
        &&& words_bytes(self.fanouts()) == apply_keystream(k, store[OBJECT_KHF_FANOUTS_OBJID])
        &&& store.contains_key(ALLOCATOR_OBJID)
        &&& words_bytes(allocator_words(self.allocator())) == apply_keystream(k, store[ALLOCATOR_OBJID])
        &&& store.contains_key(MAPPINGS_OBJID)
        &&& words_bytes(mapping_words(self.objid_list(), self.mappings())) == apply_keystream(
            k,
            store[MAPPINGS_OBJID],
        )
        &&& self.cache() == Map::<u64, KeyTable>::empty()
        &&& self.master().dirty_ids() == Set::<u64>::empty()
    }

    /// Commits the state. Writes the key table of every object marked since the last commit,
    /// still loaded, encrypted under the master table's key for it; draws a new master key;
    /// writes the master table, the fanouts, the allocator and the mappings encrypted under it
    /// to the four reserved objects; and finally writes the new master key to the start of the
    /// enclave. Fails with `Khf`, before touching the reserved objects, when the master table
    /// has no key for a marked table.
    pub fn persist_state(&mut self) -> (r: Result<(), Error>)
        requires
            old(self).wf(),
        ensures
            final(self).wf(),
            final(self).mappings() == old(self).mappings(),
            final(self).objid_list() == old(self).objid_list(),
            final(self).allocator() == old(self).allocator(),
            final(self).fanouts() == old(self).fanouts(),
            final(self).cache() == old(self).cache(),
            final(self).master().key_map() == old(self).master().key_map(),
            final(self).master().dirty_ids() == Set::<u64>::empty(),
            r is Ok,
            r is Ok ==> {
                &&& final(self).image_committed()
                &&& final(self).store().remove_keys(
                    old(self).master().dirty_ids().union(Set::new(|x: u64| is_reserved(x))),
                ) == old(self).store().remove_keys(
                    old(self).master().dirty_ids().union(Set::new(|x: u64| is_reserved(x))),
                )
                &&& forall|k: u64|
                    old(self).master().dirty_ids().contains(k) && !is_reserved(k)
                        && #[trigger] old(self).cache().contains_key(k) ==> final(self).store()[k]
                        == apply_keystream(
                        old(self).master().key_map()[k]@,
                        table_bytes(old(self).cache()[k].entry_seq()),
                    )
            },
    {
        let dirty = self.master_khf.commit();
        let ghost store0 = self.store();
        let mut i: usize = 0;
        while i < dirty.len()
            invariant
                self.wf(),
                i <= dirty@.len(),
                dirty@.to_set() == old(self).master().dirty_ids(),
                old(self).master().dirty_ids().subset_of(old(self).master().key_map().dom()),
                dirty@.no_duplicates(),
                self.mappings() == old(self).mappings(),
                self.objid_list() == old(self).objid_list(),
                self.allocator() == old(self).allocator(),
                self.fanouts() == old(self).fanouts(),
                self.cache() == old(self).cache(),
                self.master().key_map() == old(self).master().key_map(),
                self.master().dirty_ids() == Set::<u64>::empty(),
                forall|j: int|
                    0 <= j < i && #[trigger] old(self).cache().contains_key(dirty@[j]) ==> old(
                        self,
                    ).master().key_map().contains_key(dirty@[j]),
                self.store().remove_keys(dirty@.subrange(0, i as int).to_set()) == store0.remove_keys(
                    dirty@.subrange(0, i as int).to_set(),
                ),
                forall|j: int|
                    0 <= j < i && #[trigger] old(self).cache().contains_key(dirty@[j]) ==> self.store()[dirty@[j]]
                        == apply_keystream(
                        old(self).master().key_map()[dirty@[j]]@,
                        table_bytes(old(self).cache()[dirty@[j]].entry_seq()),
                    ),
            decreases dirty@.len() - i,
        {
            let khf_id = dirty[i];
            proof {
                assert(dirty@.subrange(0, i + 1) =~= dirty@.subrange(0, i as int).push(khf_id));
                crate::keys::lemma_push_contains(dirty@.subrange(0, i as int), khf_id);
            }
            let ser = match self.object_khfs.get(&khf_id) {
                Some(t) => Some(t.encode()),
                None => None,
            };
            match ser {
                Some(ser) => {
                    let key = match self.master_khf.derive(khf_id) {
                        Some(k) => k,
                        None => {
                            proof {
                                assert(dirty@.to_set().contains(khf_id));
                                assert(false);
                            }
                            return Err(Error::Khf);
                        },
                    };
                    let blob = CryptIo::seal(&key, ser.as_slice());
                    let ghost before = self.store();
                    self.storage.put(khf_id, blob);
                    proof {
                        let s0 = dirty@.subrange(0, i as int).to_set();
                        let s1 = dirty@.subrange(0, i + 1).to_set();
                        assert(s1 =~= s0.insert(khf_id));
                        assert(self.store().remove_keys(s1) =~= before.remove_keys(s1));
                        assert(before.remove_keys(s1) =~= before.remove_keys(s0).remove_keys(s1));
                        assert(store0.remove_keys(s1) =~= store0.remove_keys(s0).remove_keys(s1));
                        assert forall|j: int|
                            0 <= j < i + 1 && #[trigger] old(self).cache().contains_key(dirty@[j])
                                implies self.store()[dirty@[j]] == apply_keystream(
                            old(self).master().key_map()[dirty@[j]]@,
                            table_bytes(old(self).cache()[dirty@[j]].entry_seq()),
                        ) by {
                            if j < i {
                                assert(dirty@[j] != khf_id);
                            }
                        }
                    }
                },
                None => {
                    proof {
                        let s0 = dirty@.subrange(0, i as int).to_set();
                        let s1 = dirty@.subrange(0, i + 1).to_set();
                        assert(s1 =~= s0.insert(khf_id));
                        assert(self.store().remove_keys(s1) =~= self.store().remove_keys(s0).remove_keys(s1));
                        assert(store0.remove_keys(s1) =~= store0.remove_keys(s0).remove_keys(s1));
                    }
                },
            }
            i += 1;
        }
        proof {
            assert forall|k: u64|
                old(self).master().dirty_ids().contains(k) && #[trigger] old(self).cache().contains_key(k)
                    implies old(self).master().key_map().contains_key(k) by {
                assert(dirty@.to_set().contains(k));
                let j = choose|j: int| 0 <= j < dirty@.len() && dirty@[j] == k;
            }
        }
        let ghost store1 = self.store();
        self.master_key = random_key();
        let k = self.master_key;
        let master_ser = self.master_khf.encode();
        self.storage.put(MASTER_KHF_OBJID, CryptIo::seal(&k, master_ser.as_slice()));
        let fanouts_ser = encode_words(&self.object_khf_fanouts);
        self.storage.put(OBJECT_KHF_FANOUTS_OBJID, CryptIo::seal(&k, fanouts_ser.as_slice()));
        let mut aw: Vec<u64> = Vec::new();
        aw.push(self.allocator.latest());
        let mut ids = self.allocator.allocated();
        aw.append(&mut ids);
        assert(aw@ =~= allocator_words(self.allocator));
        let alloc_ser = encode_words(&aw);
        self.storage.put(ALLOCATOR_OBJID, CryptIo::seal(&k, alloc_ser.as_slice()));
        let mw = mappings_to_words(&self.objids, &self.mappings);
        let map_ser = encode_words(&mw);
        self.storage.put(MAPPINGS_OBJID, CryptIo::seal(&k, map_ser.as_slice()));
        let _ = self.enclave.seek(SeekFrom::Start(0));
        let _ = self.enclave.write(k.as_slice());
        proof {
            assert(self.enclave_bytes().subrange(0, KEY_SIZE as int) =~= k@);
            let out = old(self).master().dirty_ids().union(Set::new(|x: u64| is_reserved(x)));
            assert(dirty@.subrange(0, dirty@.len() as int) =~= dirty@);
            assert(store1.remove_keys(out) =~= store1.remove_keys(dirty@.to_set()).remove_keys(out));
            assert(store0.remove_keys(out) =~= store0.remove_keys(dirty@.to_set()).remove_keys(out));
            assert(self.store().remove_keys(out) =~= store1.remove_keys(out));
            assert(store0 == old(self).store());
        }
        Ok(())
    }

    /// Reloads the committed state: reads the master key from the start of the enclave, then
    /// decrypts and decodes the master table, the fanouts, the allocator and the mappings from
    /// the four reserved objects. Loaded object key tables are dropped; they load again on
    /// first use. Fails with `Io` when the enclave holds fewer bytes than a key or a reserved
    /// object is missing, and with `Serde` when a snapshot does not decode; either way nothing
    /// of the state changes.
    #[verifier::rlimit(60)]
    pub fn load_state(&mut self) -> (r: Result<(), Error>)
        requires
            old(self).wf(),
        ensures
            final(self).wf(),
            final(self).store() == old(self).store(),
            final(self).enclave_bytes() == old(self).enclave_bytes(),
            r is Ok ==> final(self).loaded_from(old(self).store(), old(self).enclave_bytes()),
            r == Err::<(), Error>(Error::Io) <==> (old(self).enclave_bytes().len() < KEY_SIZE
                || !old(self).store().contains_key(MASTER_KHF_OBJID) || !old(self).store().contains_key(
                OBJECT_KHF_FANOUTS_OBJID,
            ) || !old(self).store().contains_key(ALLOCATOR_OBJID) || !old(self).store().contains_key(
                MAPPINGS_OBJID,
            )),
            r is Err ==> r == Err::<(), Error>(Error::Io) || r == Err::<(), Error>(Error::Serde),
            forall|c: Self| c.wf() && #[trigger] c.image_in(old(self).store(), old(self).enclave_bytes())
                ==> r is Ok,
            r is Err ==> {
                &&& final(self).mappings() == old(self).mappings()
                &&& final(self).objid_list() == old(self).objid_list()
                &&& final(self).allocator() == old(self).allocator()
                &&& final(self).fanouts() == old(self).fanouts()
                &&& final(self).cache() == old(self).cache()
                &&& final(self).master() == old(self).master()
                &&& final(self).master_key() == old(self).master_key()
            },
    {
        let ghost has = exists|c: Self| c.wf() && #[trigger] c.image_in(self.store(), self.enclave_bytes());
        let ghost c: Self = choose|c: Self| c.wf() && #[trigger] c.image_in(self.store(), self.enclave_bytes());
        let mut key_buf: Vec<u8> = vec![0u8; KEY_SIZE];
        let _ = self.enclave.seek(SeekFrom::Start(0));
        let n = self.enclave.read(&mut key_buf);
        if n < KEY_SIZE {
            return Err(Error::Io);
        }
        let mut k: Key = [0u8; KEY_SIZE];
        let mut j: usize = 0;
        while j < KEY_SIZE
            invariant
                j <= KEY_SIZE,
                key_buf@.len() == KEY_SIZE,
                forall|x: int| 0 <= x < j ==> k@[x] == key_buf@[x],
            decreases KEY_SIZE - j,
        {
            k[j] = key_buf[j];
            j += 1;
        }
        assert(k@ =~= self.enclave_bytes().subrange(0, KEY_SIZE as int));
        let blob0 = match self.storage.get(MASTER_KHF_OBJID) {
            Some(b) => b,
            None => {
                return Err(Error::Io);
            },
        };
        let blob1 = match self.storage.get(OBJECT_KHF_FANOUTS_OBJID) {
            Some(b) => b,
            None => {
                return Err(Error::Io);
            },
        };
        let blob2 = match self.storage.get(ALLOCATOR_OBJID) {
            Some(b) => b,
            None => {
                return Err(Error::Io);
            },
        };
        let blob3 = match self.storage.get(MAPPINGS_OBJID) {
            Some(b) => b,
            None => {
                return Err(Error::Io);
            },
        };
        proof {
            if has {
                let kk = k@;
                assert(kk == c.master_key()@);
                crate::crypto::lemma_keystream_involution(kk, table_bytes(c.master().entry_seq()));
                crate::crypto::lemma_keystream_involution(kk, words_bytes(c.fanouts()));
                crate::crypto::lemma_keystream_involution(kk, words_bytes(allocator_words(c.allocator())));
                crate::crypto::lemma_keystream_involution(
                    kk,
                    words_bytes(mapping_words(c.objid_list(), c.mappings())),
                );
                KeyTable::lemma_entries_unique(&c.master_khf);
                crate::codec::lemma_words_bytes_len(c.fanouts());
                crate::codec::lemma_words_bytes_len(allocator_words(c.allocator()));
                crate::codec::lemma_words_bytes_len(mapping_words(c.objid_list(), c.mappings()));
            }
        }
        let master = match KeyTable::decode(CryptIo::unseal(&k, blob0).as_slice()) {
            Some(t) => t,
            None => {
                return Err(Error::Serde);
            },
        };
        let fanouts = match decode_words(CryptIo::unseal(&k, blob1).as_slice()) {
            Some(w) => w,
            None => {
                return Err(Error::Serde);
            },
        };
        let aw = match decode_words(CryptIo::unseal(&k, blob2).as_slice()) {
            Some(w) => w,
            None => {
                return Err(Error::Serde);
            },
        };
        proof {
            if has {
                crate::codec::lemma_words_bytes_injective(aw@, allocator_words(c.allocator()));
            }
        }
        if aw.len() == 0 {
            return Err(Error::Serde);
        }
        let latest = aw[0];
        let mut aw = aw;
        let ghost all = aw@;
        let ids = aw.split_off(1);
        assert(ids@ =~= all.subrange(1, all.len() as int));
        assert(all =~= seq![latest] + ids@);
        proof {
            if has {
                assert(ids@ =~= c.allocator().id_list());
                Allocator::lemma_wf_unique(&c.allocator);
            }
        }
        let allocator = match Allocator::from_parts(latest, ids) {
            Some(a) => a,
            None => {
                return Err(Error::Serde);
            },
        };
        proof {
            if has {
                Allocator::lemma_same_list_same_ids(&allocator, &c.allocator);
                assert(is_reserved(0u64) && is_reserved(1u64) && is_reserved(2u64) && is_reserved(3u64));
            }
        }
        if !allocator.contains(MASTER_KHF_OBJID) || !allocator.contains(OBJECT_KHF_FANOUTS_OBJID)
            || !allocator.contains(ALLOCATOR_OBJID) || !allocator.contains(MAPPINGS_OBJID) {
            return Err(Error::Serde);
        }
        let mw = match decode_words(CryptIo::unseal(&k, blob3).as_slice()) {
            Some(w) => w,
            None => {
                return Err(Error::Serde);
            },
        };
        proof {
            if has {
                crate::codec::lemma_words_bytes_injective(
                    mw@,
                    mapping_words(c.objid_list(), c.mappings()),
                );
                assert(mappings_valid(c.objids@, c.mappings@));
            }
        }
        let (objids, mappings) = match mappings_from_words(&mw, Ghost((c.objids@, c.mappings@))) {
            Some(p) => p,
            None => {
                return Err(Error::Serde);
            },
        };
        proof {
            if has {
                lemma_mapping_words_injective(objids@, mappings@, c.objids@, c.mappings@);
                assert forall|o: u64| #[trigger] mappings@.contains_key(o) == c.mappings@.contains_key(o) by {
                    assert(objids@.contains(o) == c.objids@.contains(o));
                }
                assert forall|o: u64| #[trigger] mappings@.contains_key(o) implies mappings@[o] == c.mappings@[o] by {
                    assert(objids@.contains(o));
                }
                assert(mappings@ =~= c.mappings@);
                Allocator::lemma_same_list_same_ids(&allocator, &c.allocator);
            }
        }
        if !check_mappings_fit(&objids, &mappings, &allocator) {
            return Err(Error::Serde);
        }
        self.master_key = k;
        self.master_khf = master;
        self.object_khf_fanouts = fanouts;
        self.allocator = allocator;
        self.mappings = mappings;
        self.objids = objids;
        self.object_khfs = HashMap::new();
        assert(self.object_khfs@ =~= Map::<u64, KeyTable>::empty());
        Ok(())
    }

    /// Reloading from a store and an enclave that hold the committed image of a state gives
    /// back that state: the same master key, master key table, fanouts, allocator and mappings.
    pub proof fn lemma_reload_restores_committed(
        committed: &Self,
        store: Map<u64, Seq<u8>>,
        enclave: Seq<u8>,
        reloaded: &Self,
    )
        requires
            committed.wf(),
            committed.image_in(store, enclave),
            reloaded.wf(),
            reloaded.loaded_from(store, enclave),
        ensures
            reloaded.master_key() == committed.master_key(),
            reloaded.master().key_map() == committed.master().key_map(),
            reloaded.fanouts() == committed.fanouts(),
            reloaded.allocator().latest_id() == committed.allocator().latest_id(),
            reloaded.allocator().ids() == committed.allocator().ids(),
            reloaded.mappings() == committed.mappings(),
            reloaded.objid_list() == committed.objid_list(),
    {
        let k = committed.master_key()@;
        assert(reloaded.master_key()@ == k);
        assert(reloaded.master_key() =~= committed.master_key());
        crate::crypto::lemma_keystream_involution(k, table_bytes(committed.master().entry_seq()));
        crate::keys::lemma_table_bytes_injective(
            reloaded.master().entry_seq(),
            committed.master().entry_seq(),
        );
        KeyTable::lemma_same_entries_same_keys(&reloaded.master_khf, &committed.master_khf);
        crate::crypto::lemma_keystream_involution(k, words_bytes(committed.fanouts()));
        crate::codec::lemma_words_bytes_injective(reloaded.fanouts(), committed.fanouts());
        crate::crypto::lemma_keystream_involution(k, words_bytes(allocator_words(committed.allocator())));
        crate::codec::lemma_words_bytes_injective(
            allocator_words(reloaded.allocator()),
            allocator_words(committed.allocator()),
        );
        let ra = allocator_words(reloaded.allocator());
        let ca = allocator_words(committed.allocator());
        assert(ra[0] == ca[0]);
        assert(reloaded.allocator().id_list() =~= ra.subrange(1, ra.len() as int));
        assert(committed.allocator().id_list() =~= ca.subrange(1, ca.len() as int));
        Allocator::lemma_same_list_same_ids(&reloaded.allocator, &committed.allocator);
        crate::crypto::lemma_keystream_involution(
            k,
            words_bytes(mapping_words(committed.objid_list(), committed.mappings())),
        );
        crate::codec::lemma_words_bytes_injective(
            mapping_words(reloaded.objid_list(), reloaded.mappings()),
            mapping_words(committed.objid_list(), committed.mappings()),
        );
        lemma_mapping_words_injective(
            reloaded.objid_list(),
            reloaded.mappings(),
            committed.objid_list(),
            committed.mappings(),
        );
        assert forall|o: u64| #[trigger] reloaded.mappings().contains_key(o) implies committed.mappings().contains_key(o)
            && reloaded.mappings()[o] == committed.mappings()[o] by {
            assert(reloaded.objids@.contains(o));
        }
        assert forall|o: u64| #[trigger] committed.mappings().contains_key(o) implies reloaded.mappings().contains_key(o) by {
            assert(committed.objids@.contains(o));
        }
        assert(reloaded.mappings() =~= committed.mappings());
    }

    /// Operations that keep the enclave and the four reserved objects as they were leave the
    /// committed image in place, so that a reload after them succeeds.
    pub proof fn lemma_uncommitted_changes_keep_image(committed: &Self, changed: &Self)
        requires
            committed.image_committed(),
            committed.same_image(changed),
        ensures
            committed.image_in(changed.store(), changed.enclave_bytes()),
    {
        let rs = Set::new(|r: u64| is_reserved(r));
        assert(rs.contains(0u64) && rs.contains(1u64) && rs.contains(2u64) && rs.contains(3u64));
        assert(changed.store().restrict(rs).contains_key(0u64) == committed.store().restrict(rs).contains_key(0u64));
        assert(changed.store().restrict(rs).contains_key(1u64) == committed.store().restrict(rs).contains_key(1u64));
        assert(changed.store().restrict(rs).contains_key(2u64) == committed.store().restrict(rs).contains_key(2u64));
        assert(changed.store().restrict(rs).contains_key(3u64) == committed.store().restrict(rs).contains_key(3u64));
        assert(changed.store()[0u64] == changed.store().restrict(rs)[0u64]);
        assert(changed.store()[1u64] == changed.store().restrict(rs)[1u64]);
        assert(changed.store()[2u64] == changed.store().restrict(rs)[2u64]);
        assert(changed.store()[3u64] == changed.store().restrict(rs)[3u64]);
    }

    /// Operations that keep the enclave and the four reserved objects as they were leave a
    /// committed image in place: reloading after them, without a commit, gives back the
    /// committed state.
    pub proof fn lemma_reload_after_uncommitted_changes(committed: &Self, changed: &Self, reloaded: &Self)
        requires
            committed.wf(),
            committed.image_committed(),
            committed.same_image(changed),
            reloaded.wf(),
            reloaded.loaded_from(changed.store(), changed.enclave_bytes()),
        ensures
            reloaded.master_key() == committed.master_key(),
            reloaded.master().key_map() == committed.master().key_map(),
            reloaded.fanouts() == committed.fanouts(),
            reloaded.allocator().latest_id() == committed.allocator().latest_id(),
            reloaded.allocator().ids() == committed.allocator().ids(),
            reloaded.mappings() == committed.mappings(),
            reloaded.objid_list() == committed.objid_list(),
    {
        Self::lemma_uncommitted_changes_keep_image(committed, changed);
        Self::lemma_reload_restores_committed(committed, changed.store(), changed.enclave_bytes(), reloaded);
    }

    /// An object whose key table a commit wrote, reloaded from that commit's store and
    /// enclave, is ready and reads back the plaintext it had at the commit.
    pub proof fn lemma_reload_reads_committed_object(committed: &Self, reloaded: &Self, objid: u64)
        requires
            committed.wf(),
            committed.image_committed(),
            committed.is_loaded(objid),
            committed.master().key_map().contains_key(committed.mappings()[objid].khf_id),
            committed.store().contains_key(committed.mappings()[objid].khf_id),
            committed.store()[committed.mappings()[objid].khf_id] == apply_keystream(
                committed.master().key_map()[committed.mappings()[objid].khf_id]@,
                table_bytes(committed.cache()[committed.mappings()[objid].khf_id].entry_seq()),
            ),
            reloaded.wf(),
            reloaded.loaded_from(committed.store(), committed.enclave_bytes()),
            reloaded.store() == committed.store(),
        ensures
            reloaded.ready(objid),
            reloaded.object_plaintext(objid) == committed.plaintext(objid),
    {
        Self::lemma_reload_restores_committed(committed, committed.store(), committed.enclave_bytes(), reloaded);
        let e = committed.mappings()[objid];
        let t = committed.cache()[e.khf_id];
        assert(committed.object_khfs@.contains_key(e.khf_id));
        assert(t.wf());
        let mk = committed.master().key_map()[e.khf_id]@;
        crate::crypto::lemma_keystream_involution(mk, table_bytes(t.entry_seq()));
        assert(reloaded.table_blob_plain(objid) == table_bytes(t.entry_seq()));
        KeyTable::lemma_entries_unique(&t);
        assert(reloaded.mappings()[objid] == e);
        assert(table_bytes(t.entry_seq()) == reloaded.table_blob_plain(objid) && entries_unique(t.entry_seq()));
        assert(reloaded.table_available(objid));
        let es = choose|es: Seq<(u64, Key)>|
            table_bytes(es) == reloaded.table_blob_plain(objid) && entries_unique(es);
        crate::keys::lemma_table_bytes_injective(es, t.entry_seq());
        KeyTable::lemma_keys_of_entries(&t);
        assert(reloaded.object_keys(objid) == t.key_map());
    }
}

} // verus!
