//! The persistent map: an in-memory table of unique keys bound to one
//! 32-byte storage key, with a load / mutate / flush lifecycle.
//!
//! Mutation is entirely in memory; the table may diverge from the bytes last
//! persisted until `flush` writes the whole encoding under the bound key.

use vstd::prelude::*;

verus! {

use crate::assoc::{
    lemma_map_of_contains, lemma_map_of_first, lemma_map_of_index, lemma_map_of_len,
    lemma_map_of_remove, lemma_map_of_update, map_of, unique_keys,
};
use crate::codec::{Codec, DecodeError, Key};
use crate::storage::{
    spec_storage_key, spec_zero_sentinel, to_storage_key, StorageABI, StorageKey,
};

/// Why loading a map from the store failed.
#[derive(Clone, Copy, Debug, PartialEq, Eq, Structural)]
pub enum LoadError {
    /// Nothing was ever written under the requested key, or only the zero
    /// sentinel stands there.
    Unavailable,
    /// A record is present but its bytes do not parse as a map.
    Decode(DecodeError),
}

/// The views of a sequence of (key, value) pairs.
pub(crate) open spec fn pair_views<K: Key, V: Codec>(s: Seq<(K, V)>) -> Seq<
    (<K as View>::V, <V as View>::V),
> {
    s.map_values(|p: (K, V)| (p.0@, p.1@))
}

/// An in-memory table of unique keys, bound to one storage key.
///
/// Entries live in a vector; the abstract content is the finite map of the
/// entries' views, with no promised iteration order.
#[derive(Clone)]
pub struct PersistentMap<K: Key, V: Codec> {
    entries: Vec<(K, V)>,
    storage_key: StorageKey,
}

impl<K: Key, V: Codec> View for PersistentMap<K, V> {
    type V = Map<<K as View>::V, <V as View>::V>;

    closed spec fn view(&self) -> Map<<K as View>::V, <V as View>::V> {
        map_of(pair_views(self.entries@))
    }
}

impl<K: Key, V: Codec> PersistentMap<K, V> {
    /// The storage key this instance is bound to.
    pub closed spec fn bound_key(&self) -> Seq<u8> {
        self.storage_key@
    }

    /// Create a new, empty map bound to the storage key derived from
    /// `storage_key`; the store is not touched.
    pub fn new(storage_key: &[u8]) -> (r: Self)
        ensures
            r.wf(),
            r@ == Map::<<K as View>::V, <V as View>::V>::empty(),
            r.bound_key() == spec_storage_key(storage_key@),
    {
        let r = PersistentMap { entries: Vec::new(), storage_key: to_storage_key(storage_key) };
        proof {
            assert(pair_views(r.entries@) =~= Seq::empty());
        }
        r
    }

    /// Create a new, empty map bound to the all-zero storage key.
    pub fn default() -> (r: Self)
        ensures
            r.wf(),
            r@ == Map::<<K as View>::V, <V as View>::V>::empty(),
            r.bound_key() == spec_storage_key(Seq::empty()),
    {
        let r = PersistentMap { entries: Vec::new(), storage_key: [0u8; 32] };
        proof {
            assert(pair_views(r.entries@) =~= Seq::empty());
            assert(r.storage_key@ =~= spec_storage_key(Seq::empty()));
        }
        r
    }

    /// The 32-byte storage key this instance is bound to.
    pub fn storage_key(&self) -> (r: &StorageKey)
        ensures
            r@ == self.bound_key(),
    {
        &self.storage_key
    }

    /// The number of entries in the map.
    pub fn len(&self) -> (r: usize)
        requires
            self.wf(),
        ensures
            r == self@.dom().len(),
    {
        proof {
            lemma_map_of_len(pair_views(self.entries@));
        }
        self.entries.len()
    }

    /// Whether the map holds no entry.
    pub fn is_empty(&self) -> (r: bool)
        requires
            self.wf(),
        ensures
            r == (self@.dom().len() == 0),
            r == (self@ == Map::<<K as View>::V, <V as View>::V>::empty()),
    {
        proof {
            lemma_map_of_len(pair_views(self.entries@));
            if self.entries@.len() == 0 {
                assert(pair_views(self.entries@) =~= Seq::empty());
                assert(self@ =~= Map::<<K as View>::V, <V as View>::V>::empty());
            } else {
                lemma_map_of_index(pair_views(self.entries@), 0);
            }
        }
        self.entries.len() == 0
    }

    /// The index of the entry holding `key`, if any.
    fn index_of(&self, key: &K) -> (r: Option<usize>)
        requires
            self.wf(),
        ensures
            match r {
                Some(i) => {
                    &&& i < self.entries@.len()
                    &&& self.entries@[i as int].0@ == key@
                    &&& self@.contains_key(key@)
                    &&& self@[key@] == self.entries@[i as int].1@
                },
                None => !self@.contains_key(key@),
            },
    {
        let n = self.entries.len();
        let mut i: usize = 0;
        while i < n
            invariant
                self.wf(),
                0 <= i <= n == self.entries@.len(),
                forall|j: int| 0 <= j < i ==> self.entries@[j].0@ != key@,
            decreases n - i,
        {
            if self.entries[i].0.key_eq(key) {
                proof {
                    lemma_map_of_index(pair_views(self.entries@), i as int);
                }
                return Some(i);
            }
            i += 1;
        }
        proof {
            lemma_map_of_contains(pair_views(self.entries@), key@);
        }
        None
    }

    /// The value under `key`, or `None` when the map holds no such key.
    pub fn get(&self, key: &K) -> (r: Option<&V>)
        requires
            self.wf(),
        ensures
            match r {
                Some(v) => self@.contains_key(key@) && v@ == self@[key@] && v.wf(),
                None => !self@.contains_key(key@),
            },
    {
        match self.index_of(key) {
            Some(i) => Some(&self.entries[i].1),
            None => None,
        }
    }

    /// A mutable borrow of the value under `key`, or `None` when the map
    /// holds no such key. The new content is the old with whatever the
    /// caller leaves behind the borrow; writing an invalid value (for value
    /// types that have validity at all) leaves the map unfit for encoding.
    pub fn get_mut(&mut self, key: &K) -> (r: Option<&mut V>)
        requires
            old(self).wf(),
        ensures
            match r {
                Some(v) => {
                    &&& old(self)@.contains_key(key@)
                    &&& (*v)@ == old(self)@[key@]
                    &&& (*v).wf()
                    &&& final(self)@ == old(self)@.insert(key@, (*final(v))@)
                    &&& ((*final(v)).wf() ==> final(self).wf())
                    &&& final(self).bound_key() == old(self).bound_key()
                },
                None => {
                    &&& !old(self)@.contains_key(key@)
                    &&& *final(self) == *old(self)
                },
            },
    {
        match self.index_of(key) {
            None => None,
            Some(i) => {
                let ghost s0 = pair_views(self.entries@);
                let v = &mut self.entries[i].1;
                proof {
                    assert(pair_views(after_borrow(self.entries)@) =~= s0.update(
                        i as int,
                        (key@, (*final(v))@),
                    ));
                    lemma_map_of_update(s0, i as int, (*final(v))@);
                }
                Some(v)
            },
        }
    }

    /// Whether the map holds a value under `key`.
    pub fn contains_key(&self, key: &K) -> (r: bool)
        requires
            self.wf(),
        ensures
            r == self@.contains_key(key@),
    {
        self.index_of(key).is_some()
    }

    /// The value under `key`, which the caller asserts is present; the
    /// counterpart of indexing in ordinary map interfaces, with the
    /// out-of-bounds panic traded for a precondition.
    pub fn index(&self, key: &K) -> (r: &V)
        requires
            self.wf(),
            self@.contains_key(key@),
        ensures
            r@ == self@[key@],
            r.wf(),
    {
        match self.get(key) {
            Some(v) => v,
            None => vstd::pervasive::unreached(),
        }
    }

    /// The value under `key` as mutable, which the caller asserts is
    /// present; as `get_mut`, with the absence case traded for a
    /// precondition.
    pub fn index_mut(&mut self, key: &K) -> (r: &mut V)
        requires
            old(self).wf(),
            old(self)@.contains_key(key@),
        ensures
            (*r)@ == old(self)@[key@],
            (*r).wf(),
            final(self)@ == old(self)@.insert(key@, (*final(r))@),
            (*final(r)).wf() ==> final(self).wf(),
            final(self).bound_key() == old(self).bound_key(),
    {
        match self.get_mut(key) {
            Some(v) => v,
            None => vstd::pervasive::unreached(),
        }
    }

    /// Insert `value` under `key`, replacing any earlier value; in memory
    /// only, the store is not touched.
    pub fn insert(&mut self, key: K, value: V)
        requires
            old(self).wf(),
            key.wf(),
            value.wf(),
        ensures
            final(self).wf(),
            final(self)@ == old(self)@.insert(key@, value@),
            final(self).bound_key() == old(self).bound_key(),
    {
        let ghost s0 = pair_views(self.entries@);
        match self.index_of(&key) {
            Some(i) => {
                self.entries.remove(i);
                let ghost s1 = pair_views(self.entries@);
                proof {
                    assert(s1 =~= s0.remove(i as int));
                    lemma_map_of_remove(s0, i as int);
                    lemma_map_of_contains(s1, key@);
                }
                self.entries.push((key, value));
                proof {
                    let s2 = pair_views(self.entries@);
                    assert(s2.drop_last() =~= s1);
                    assert(s2.last() == (key@, value@));
                    assert(map_of(s2) =~= map_of(s0).insert(key@, value@));
                    assert(unique_keys(s2)) by {
                        assert(forall|p: int| 0 <= p < s1.len() ==> s2[p] == s1[p]);
                    }
                }
            },
            None => {
                proof {
                    lemma_map_of_contains(s0, key@);
                }
                self.entries.push((key, value));
                proof {
                    let s2 = pair_views(self.entries@);
                    assert(s2.drop_last() =~= s0);
                    assert(s2.last() == (key@, value@));
                    assert(unique_keys(s2)) by {
                        assert(forall|p: int| 0 <= p < s0.len() ==> s2[p] == s0[p]);
                    }
                }
            },
        }
    }

    /// Remove the value under `key`, if any; in memory only, the store is
    /// not touched. Removing an absent key changes nothing.
    pub fn remove(&mut self, key: &K)
        requires
            old(self).wf(),
        ensures
            final(self).wf(),
            final(self)@ == old(self)@.remove(key@),
            final(self).bound_key() == old(self).bound_key(),
    {
        let ghost s0 = pair_views(self.entries@);
        match self.index_of(key) {
            Some(i) => {
                self.entries.remove(i);
                proof {
                    assert(pair_views(self.entries@) =~= s0.remove(i as int));
                    lemma_map_of_remove(s0, i as int);
                }
            },
            None => {
                proof {
                    assert(map_of(s0) =~= map_of(s0).remove(key@));
                }
            },
        }
    }

    /// The entries as a vector of pairs, in no promised order: every pair is
    /// in the map, no key repeats, and every map entry appears.
    pub fn iter(&self) -> (r: &Vec<(K, V)>)
        requires
            self.wf(),
        ensures
            r@.len() == self@.dom().len(),
            forall|i: int|
                0 <= i < r@.len() ==> self@.contains_key(#[trigger] r@[i].0@) && self@[r@[i].0@]
                    == r@[i].1@,
            forall|i: int, j: int| 0 <= i < j < r@.len() ==> r@[i].0@ != r@[j].0@,
            forall|k: <K as View>::V|
                self@.contains_key(k) ==> exists|i: int| 0 <= i < r@.len() && (#[trigger] r@[i].0@)
                    == k,
    {
        proof {
            lemma_map_of_len(pair_views(self.entries@));
            assert forall|k: <K as View>::V| self@.contains_key(k) implies exists|i: int|
                0 <= i < self.entries@.len() && (#[trigger] self.entries@[i].0@) == k by {
                lemma_map_of_contains(pair_views(self.entries@), k);
                let i = choose|i: int|
                    0 <= i < pair_views(self.entries@).len() && pair_views(self.entries@)[i].0
                        == k;
                assert(self.entries@[i].0@ == k);
            }
            assert forall|i: int|
                0 <= i < self.entries@.len() implies self@.contains_key(
                #[trigger] self.entries@[i].0@,
            ) && self@[self.entries@[i].0@] == self.entries@[i].1@ by {
                lemma_map_of_index(pair_views(self.entries@), i);
            }
            assert forall|i: int, j: int|
                0 <= i < j < self.entries@.len() implies self.entries@[i].0@ != self.entries@[j].0@
                by {
                let pv = pair_views(self.entries@);
                assert(pv[i].0 == self.entries@[i].0@);
                assert(pv[j].0 == self.entries@[j].0@);
            }
        }
        &self.entries
    }
}

impl<K: Key, V: Codec> Codec for PersistentMap<K, V> {
    /// Keys are unique at the view level and every entry is itself valid.
    closed spec fn wf(&self) -> bool {
        &&& unique_keys(pair_views(self.entries@))
        &&& forall|i: int| 0 <= i < self.entries@.len() ==> (#[trigger] self.entries@[i].0.wf())
        &&& forall|i: int| 0 <= i < self.entries@.len() ==> (#[trigger] self.entries@[i].1.wf())
    }

    open spec fn spec_decode(b: Seq<u8>) -> Option<
        (Map<<K as View>::V, <V as View>::V>, int),
    > {
        match <u64 as Codec>::spec_decode(b) {
            Some(pc) => match spec_decode_pairs::<K, V>(b.skip(pc.1), pc.0 as int) {
                Some(pp) => Some((pp.0, pc.1 + pp.1)),
                None => None,
            },
            None => None,
        }
    }

    proof fn lemma_decode_len(b: Seq<u8>) {
        if <Self as Codec>::spec_decode(b) is Some {
            let pc = <u64 as Codec>::spec_decode(b)->Some_0;
            lemma_decode_pairs_len::<K, V>(b.skip(pc.1), pc.0 as int);
        }
    }

    proof fn lemma_decode_prefix(b: Seq<u8>) {
        if <Self as Codec>::spec_decode(b) is Some {
            let pc = <u64 as Codec>::spec_decode(b)->Some_0;
            let pp = spec_decode_pairs::<K, V>(b.skip(pc.1), pc.0 as int)->Some_0;
            lemma_decode_pairs_len::<K, V>(b.skip(pc.1), pc.0 as int);
            let t = b.take(pc.1 + pp.1);
            assert(t.take(8) =~= b.take(8));
            assert(t.skip(pc.1) =~= b.skip(pc.1).take(pp.1));
            lemma_decode_pairs_prefix::<K, V>(b.skip(pc.1), pc.0 as int);
        }
    }

    proof fn lemma_decode_extend(b: Seq<u8>, ext: Seq<u8>) {
        let pc = <u64 as Codec>::spec_decode(b)->Some_0;
        assert((b + ext).take(8) =~= b.take(8));
        assert((b + ext).skip(pc.1) =~= b.skip(pc.1) + ext);
        lemma_decode_pairs_len::<K, V>(b.skip(pc.1), pc.0 as int);
        lemma_decode_pairs_extend::<K, V>(b.skip(pc.1), ext, pc.0 as int);
    }

    fn encode_into(&self, out: &mut Vec<u8>) {
        let n: u64 = self.entries.len() as u64;
        n.encode_into(out);
        let e: Ghost<Seq<u8>> = Ghost(out@.skip(old(out)@.len() as int));
        self.encode_pairs_from(0, out);
        proof {
            let rest = out@.skip(old(out)@.len() as int + e@.len());
            assert(e@ + rest =~= out@.skip(old(out)@.len() as int));
            <u64 as Codec>::lemma_decode_extend(e@, rest);
            assert(out@.skip(old(out)@.len() as int).skip(e@.len() as int) =~= rest);
            assert(self.entries@.skip(0) =~= self.entries@);
            assert(out@.take(old(out)@.len() as int) =~= old(out)@);
        }
    }

    fn decode_from(b: &[u8], pos: usize) -> (r: Option<(Self, usize)>) {
        match u64::decode_from(b, pos) {
            None => None,
            Some((n, pos1)) => {
                proof {
                    assert(b@.skip(pos as int).skip(pos1 as int - pos as int) =~= b@.skip(
                        pos1 as int,
                    ));
                }
                match Self::decode_pairs_from(b, pos1, n) {
                    None => None,
                    Some((m, pos2)) => Some((m, pos2)),
                }
            },
        }
    }
}

/// The map encoded as `count` consecutive (key, value) pairs at the front of
/// `b`, with the number of bytes they occupy; entries are replayed in order,
/// a later pair winning over an earlier one with the same key.
pub open spec fn spec_decode_pairs<K: Key, V: Codec>(b: Seq<u8>, count: int) -> Option<
    (Map<<K as View>::V, <V as View>::V>, int),
>
    decreases count,
{
    if count <= 0 {
        Some((Map::empty(), 0))
    } else {
        match <K as Codec>::spec_decode(b) {
            Some(pk) => match <V as Codec>::spec_decode(b.skip(pk.1)) {
                Some(pv) => match spec_decode_pairs::<K, V>(b.skip(pk.1 + pv.1), count - 1) {
                    Some(pr) => {
                        let m = if pr.0.contains_key(pk.0) {
                            pr.0
                        } else {
                            pr.0.insert(pk.0, pv.0)
                        };
                        Some((m, pk.1 + pv.1 + pr.1))
                    },
                    None => None,
                },
                None => None,
            },
            None => None,
        }
    }
}

/// The zero sentinel never passes for a whole persisted map: its first
/// eight bytes read as the count zero, so a map decode consumes eight bytes
/// and leaves the rest, while a whole record requires exact consumption.
/// After a remove at the store level, a load therefore never mistakes the
/// sentinel for an empty map; the sentinel reads back as absence instead.
pub proof fn lemma_sentinel_is_no_map_encoding<K: Key, V: Codec>()
    ensures
        <PersistentMap<K, V> as Codec>::spec_decode(spec_zero_sentinel()) == Some(
            (Map::<<K as View>::V, <V as View>::V>::empty(), 8int),
        ),
{
    let z = spec_zero_sentinel();
    vstd::bytes::lemma_auto_spec_u64_to_from_le_bytes();
    vstd::bytes::spec_u64_to_le_bytes_to_open(0u64);
    assert((0u64 & 0xff) == 0 && ((0u64 >> 8) & 0xff) == 0 && ((0u64 >> 16) & 0xff) == 0 && ((0u64
        >> 24) & 0xff) == 0 && ((0u64 >> 32) & 0xff) == 0 && ((0u64 >> 40) & 0xff) == 0 && ((0u64
        >> 48) & 0xff) == 0 && ((0u64 >> 56) & 0xff) == 0) by (bit_vector);
    assert(vstd::bytes::spec_u64_to_le_bytes(0u64) =~= z.take(8));
    assert(vstd::bytes::spec_u64_from_le_bytes(z.take(8)) == 0u64);
}

/// Consecutive pairs never reach past the buffer's end.
proof fn lemma_decode_pairs_len<K: Key, V: Codec>(b: Seq<u8>, count: int)
    ensures
        spec_decode_pairs::<K, V>(b, count) matches Some(p) ==> 0 <= p.1 <= b.len(),
    decreases count,
{
    if count > 0 && spec_decode_pairs::<K, V>(b, count) is Some {
        let pk = <K as Codec>::spec_decode(b)->Some_0;
        <K as Codec>::lemma_decode_len(b);
        let pv = <V as Codec>::spec_decode(b.skip(pk.1))->Some_0;
        <V as Codec>::lemma_decode_len(b.skip(pk.1));
        lemma_decode_pairs_len::<K, V>(b.skip(pk.1 + pv.1), count - 1);
    }
}

/// Consecutive pairs read only the bytes they consume: cutting the buffer
/// down to the consumed prefix changes nothing.
proof fn lemma_decode_pairs_prefix<K: Key, V: Codec>(b: Seq<u8>, count: int)
    ensures
        spec_decode_pairs::<K, V>(b, count) matches Some(p) ==> spec_decode_pairs::<K, V>(
            b.take(p.1),
            count,
        ) == spec_decode_pairs::<K, V>(b, count),
    decreases count,
{
    if count > 0 && spec_decode_pairs::<K, V>(b, count) is Some {
        let pk = <K as Codec>::spec_decode(b)->Some_0;
        <K as Codec>::lemma_decode_len(b);
        <K as Codec>::lemma_decode_prefix(b);
        let pv = <V as Codec>::spec_decode(b.skip(pk.1))->Some_0;
        <V as Codec>::lemma_decode_len(b.skip(pk.1));
        <V as Codec>::lemma_decode_prefix(b.skip(pk.1));
        let pr = spec_decode_pairs::<K, V>(b.skip(pk.1 + pv.1), count - 1)->Some_0;
        lemma_decode_pairs_len::<K, V>(b.skip(pk.1 + pv.1), count - 1);
        lemma_decode_pairs_prefix::<K, V>(b.skip(pk.1 + pv.1), count - 1);
        let t = b.take(pk.1 + pv.1 + pr.1);
        <K as Codec>::lemma_decode_extend(b.take(pk.1), b.skip(pk.1).take(pv.1 + pr.1));
        assert(b.take(pk.1) + b.skip(pk.1).take(pv.1 + pr.1) =~= t);
        assert(t.skip(pk.1) =~= b.skip(pk.1).take(pv.1 + pr.1));
        <V as Codec>::lemma_decode_extend(
            b.skip(pk.1).take(pv.1),
            b.skip(pk.1 + pv.1).take(pr.1),
        );
        assert(b.skip(pk.1).take(pv.1) + b.skip(pk.1 + pv.1).take(pr.1) =~= t.skip(pk.1));
        assert(t.skip(pk.1 + pv.1) =~= b.skip(pk.1 + pv.1).take(pr.1));
    }
}

/// Consecutive pairs read only the bytes they consume: extending a buffer
/// that was consumed exactly changes nothing.
proof fn lemma_decode_pairs_extend<K: Key, V: Codec>(b: Seq<u8>, ext: Seq<u8>, count: int)
    requires
        spec_decode_pairs::<K, V>(b, count) matches Some(p) && p.1 == b.len(),
    ensures
        spec_decode_pairs::<K, V>(b + ext, count) == spec_decode_pairs::<K, V>(b, count),
    decreases count,
{
    if count <= 0 {
    } else {
        let pk = <K as Codec>::spec_decode(b)->Some_0;
        <K as Codec>::lemma_decode_len(b);
        <K as Codec>::lemma_decode_prefix(b);
        <K as Codec>::lemma_decode_extend(b.take(pk.1), b.skip(pk.1) + ext);
        assert(b.take(pk.1) + (b.skip(pk.1) + ext) =~= b + ext);
        assert((b + ext).skip(pk.1) =~= b.skip(pk.1) + ext);
        let pv = <V as Codec>::spec_decode(b.skip(pk.1))->Some_0;
        <V as Codec>::lemma_decode_len(b.skip(pk.1));
        <V as Codec>::lemma_decode_prefix(b.skip(pk.1));
        lemma_decode_pairs_len::<K, V>(b.skip(pk.1 + pv.1), count - 1);
        <V as Codec>::lemma_decode_extend(
            b.skip(pk.1).take(pv.1),
            b.skip(pk.1 + pv.1) + ext,
        );
        assert(b.skip(pk.1).take(pv.1) + (b.skip(pk.1 + pv.1) + ext) =~= b.skip(pk.1) + ext);
        assert((b + ext).skip(pk.1 + pv.1) =~= b.skip(pk.1 + pv.1) + ext);
        lemma_decode_pairs_extend::<K, V>(b.skip(pk.1 + pv.1), ext, count - 1);
    }
}

impl<K: Key, V: Codec> PersistentMap<K, V> {
    /// Append the encodings of the entries from index `i` on.
    fn encode_pairs_from(&self, i: usize, out: &mut Vec<u8>)
        requires
            self.wf(),
            i <= self.entries@.len(),
        ensures
            final(out)@.len() >= old(out)@.len(),
            final(out)@.take(old(out)@.len() as int) == old(out)@,
            spec_decode_pairs::<K, V>(
                final(out)@.skip(old(out)@.len() as int),
                self.entries@.len() as int - i as int,
            ) == Some(
                (
                    map_of(pair_views(self.entries@.skip(i as int))),
                    final(out)@.len() as int - old(out)@.len() as int,
                ),
            ),
        decreases self.entries@.len() - i,
    {
        if i == self.entries.len() {
            proof {
                assert(pair_views(self.entries@.skip(i as int)) =~= Seq::empty());
                assert(out@.skip(old(out)@.len() as int) =~= Seq::<u8>::empty());
                assert(out@.take(old(out)@.len() as int) =~= old(out)@);
            }
            return;
        }
        let old_len: Ghost<int> = Ghost(out@.len() as int);
        self.entries[i].0.encode_into(out);
        let e1: Ghost<Seq<u8>> = Ghost(out@.skip(old_len@));
        self.entries[i].1.encode_into(out);
        let e2: Ghost<Seq<u8>> = Ghost(out@.skip(old_len@ + e1@.len()));
        self.encode_pairs_from(i + 1, out);
        proof {
            let e3 = out@.skip(old_len@ + e1@.len() + e2@.len());
            let all = out@.skip(old_len@);
            assert(e1@ + (e2@ + e3) =~= all);
            <K as Codec>::lemma_decode_extend(e1@, e2@ + e3);
            assert(all.skip(e1@.len() as int) =~= e2@ + e3);
            <V as Codec>::lemma_decode_extend(e2@, e3);
            assert(all.skip(e1@.len() as int + e2@.len() as int) =~= e3);
            let sv = pair_views(self.entries@.skip(i as int));
            assert(unique_keys(sv)) by {
                let full = pair_views(self.entries@);
                assert(forall|p: int, q: int|
                    0 <= p < q < sv.len() ==> sv[p] == full[p + i] && sv[q] == full[q + i]);
            }
            assert(sv.len() > 0);
            assert(sv[0] == (self.entries@[i as int].0@, self.entries@[i as int].1@));
            lemma_map_of_first(sv);
            assert(sv.drop_first() =~= pair_views(self.entries@.skip(i as int + 1)));
            assert(out@.take(old_len@) =~= old(out)@);
        }
    }

    /// Decode `count` consecutive pairs starting at `pos` into a map bound
    /// to the all-zero storage key; a later pair wins over an earlier one.
    fn decode_pairs_from(b: &[u8], pos: usize, count: u64) -> (r: Option<(Self, usize)>)
        requires
            pos <= b@.len(),
        ensures
            match r {
                Some(p) => {
                    &&& spec_decode_pairs::<K, V>(b@.skip(pos as int), count as int) == Some(
                        (p.0@, p.1 as int - pos as int),
                    )
                    &&& pos <= p.1 <= b@.len()
                    &&& p.0.wf()
                    &&& p.0.bound_key() == spec_storage_key(Seq::empty())
                },
                None => spec_decode_pairs::<K, V>(b@.skip(pos as int), count as int) is None,
            },
        decreases count,
    {
        if count == 0 {
            return Some((Self::default(), pos));
        }
        match K::decode_from(b, pos) {
            None => None,
            Some((k, pos1)) => {
                proof {
                    assert(b@.skip(pos as int).skip(pos1 as int - pos as int) =~= b@.skip(
                        pos1 as int,
                    ));
                }
                match V::decode_from(b, pos1) {
                    None => None,
                    Some((v, pos2)) => {
                        proof {
                            assert(b@.skip(pos as int).skip(pos2 as int - pos as int) =~= b@.skip(
                                pos2 as int,
                            ));
                        }
                        match Self::decode_pairs_from(b, pos2, count - 1) {
                            None => None,
                            Some((mut m, pos3)) => {
                                if !m.contains_key(&k) {
                                    m.insert(k, v);
                                }
                                Some((m, pos3))
                            },
                        }
                    },
                }
            },
        }
    }

    /// Encode the whole map: the entry count, then each (key, value) pair,
    /// in the table's own order. Decoding the result yields exactly this
    /// map's content — the round-trip holds for content, not bytes, since
    /// no iteration order is promised.
    pub fn encode(&self) -> (r: Vec<u8>)
        requires
            self.wf(),
        ensures
            <Self as Codec>::spec_decode(r@) == Some((self@, r@.len() as int)),
    {
        let mut out: Vec<u8> = Vec::new();
        self.encode_into(&mut out);
        proof {
            assert(out@.skip(0) =~= out@);
        }
        out
    }

    /// Decode a whole map from `b`, requiring exact consumption of the
    /// buffer. The result is bound to the all-zero storage key: an encoding
    /// does not carry its own key.
    pub fn decode(b: &[u8]) -> (r: Result<Self, DecodeError>)
        ensures
            match r {
                Ok(m) => {
                    &&& <Self as Codec>::spec_decode(b@) == Some((m@, b@.len() as int))
                    &&& m.wf()
                    &&& m.bound_key() == spec_storage_key(Seq::empty())
                },
                Err(DecodeError::Truncated) => <Self as Codec>::spec_decode(b@) is None,
                Err(DecodeError::TrailingBytes) => <Self as Codec>::spec_decode(b@) matches Some(
                    p,
                ) && p.1 < b@.len(),
            },
    {
        match u64::decode_from(b, 0) {
            None => {
                proof {
                    assert(b@.skip(0) =~= b@);
                }
                Err(DecodeError::Truncated)
            },
            Some((n, pos1)) => {
                proof {
                    assert(b@.skip(0) =~= b@);
                    assert(b@.skip(0).skip(pos1 as int) =~= b@.skip(pos1 as int));
                }
                match Self::decode_pairs_from(b, pos1, n) {
                    None => Err(DecodeError::Truncated),
                    Some((m, pos2)) => {
                        if pos2 == b.len() {
                            Ok(m)
                        } else {
                            proof {
                                lemma_decode_pairs_len::<K, V>(b@.skip(pos1 as int), n as int);
                            }
                            Err(DecodeError::TrailingBytes)
                        }
                    },
                }
            },
        }
    }

    /// Write the whole map's encoding to the store under the bound key: one
    /// full rewrite of one record, and the only way any mutation reaches
    /// the store. Afterwards the record decodes to exactly this content,
    /// and no other record has changed.
    pub fn flush<S: StorageABI>(&mut self, store: &mut S)
        requires
            old(self).wf(),
        ensures
            *final(self) == *old(self),
            final(store).store().contains_key(old(self).bound_key()),
            final(store).store()[old(self).bound_key()] != spec_zero_sentinel(),
            <Self as Codec>::spec_decode(final(store).store()[old(self).bound_key()]) == Some(
                (old(self)@, final(store).store()[old(self).bound_key()].len() as int),
            ),
            final(store).store().remove(old(self).bound_key()) == old(store).store().remove(
                old(self).bound_key(),
            ),
    {
        let data = self.encode();
        store.put_kv(&self.storage_key, Some(data.as_slice()));
        proof {
            lemma_sentinel_is_no_map_encoding::<K, V>();
            assert(data@ != spec_zero_sentinel());
            assert(final(store).store().remove(self.bound_key()) =~= old(store).store().remove(
                self.bound_key(),
            ));
        }
    }

    /// Load the map persisted under the storage key derived from `key`.
    /// Fails with `Unavailable` when no record was ever written there (or
    /// only the zero sentinel stands there), and with a decode error when
    /// the record's bytes do not parse — malformed persisted data is always
    /// an error, never an empty map. The result is bound to the derived key.
    pub fn load<S: StorageABI>(key: &[u8], store: &S) -> (r: Result<Self, LoadError>)
        ensures
            match r {
                Ok(m) => {
                    &&& store.store().contains_key(spec_storage_key(key@))
                    &&& store.store()[spec_storage_key(key@)] != spec_zero_sentinel()
                    &&& <Self as Codec>::spec_decode(store.store()[spec_storage_key(key@)])
                        == Some(
                        (m@, store.store()[spec_storage_key(key@)].len() as int),
                    )
                    &&& m.wf()
                    &&& m.bound_key() == spec_storage_key(key@)
                },
                Err(LoadError::Unavailable) => !store.store().contains_key(spec_storage_key(key@))
                    || store.store()[spec_storage_key(key@)] == spec_zero_sentinel(),
                Err(LoadError::Decode(DecodeError::Truncated)) => {
                    &&& store.store().contains_key(spec_storage_key(key@))
                    &&& store.store()[spec_storage_key(key@)] != spec_zero_sentinel()
                    &&& <Self as Codec>::spec_decode(store.store()[spec_storage_key(key@)])
                        is None
                },
                Err(LoadError::Decode(DecodeError::TrailingBytes)) => {
                    &&& store.store().contains_key(spec_storage_key(key@))
                    &&& store.store()[spec_storage_key(key@)] != spec_zero_sentinel()
                    &&& <Self as Codec>::spec_decode(store.store()[spec_storage_key(key@)])
                        matches Some(p) && p.1 < store.store()[spec_storage_key(key@)].len()
                },
            },
    {
        let k = to_storage_key(key);
        match store.get_kv(&k) {
            None => Err(LoadError::Unavailable),
            Some(bytes) => match Self::decode(bytes.as_slice()) {
                Ok(m) => {
                    let mut m = m;
                    m.storage_key = k;
                    Ok(m)
                },
                Err(e) => Err(LoadError::Decode(e)),
            },
        }
    }

    /// As `load`, but the absence of any prior record yields a fresh empty
    /// map rather than failing; malformed persisted bytes are still an
    /// error. Either way the result is bound to the requested key, not to
    /// any key carried by the payload — the encoding carries none.
    pub fn load_or_create<S: StorageABI>(key: &[u8], store: &S) -> (r: Result<Self, DecodeError>)
        ensures
            match r {
                Ok(m) => {
                    &&& m.wf()
                    &&& m.bound_key() == spec_storage_key(key@)
                    &&& if !store.store().contains_key(spec_storage_key(key@)) || store.store()[
                        spec_storage_key(key@)
                    ] == spec_zero_sentinel() {
                        m@ == Map::<<K as View>::V, <V as View>::V>::empty()
                    } else {
                        <Self as Codec>::spec_decode(store.store()[spec_storage_key(key@)])
                            == Some(
                            (m@, store.store()[spec_storage_key(key@)].len() as int),
                        )
                    }
                },
                Err(DecodeError::Truncated) => {
                    &&& store.store().contains_key(spec_storage_key(key@))
                    &&& store.store()[spec_storage_key(key@)] != spec_zero_sentinel()
                    &&& <Self as Codec>::spec_decode(store.store()[spec_storage_key(key@)])
                        is None
                },
                Err(DecodeError::TrailingBytes) => {
                    &&& store.store().contains_key(spec_storage_key(key@))
                    &&& store.store()[spec_storage_key(key@)] != spec_zero_sentinel()
                    &&& <Self as Codec>::spec_decode(store.store()[spec_storage_key(key@)])
                        matches Some(p) && p.1 < store.store()[spec_storage_key(key@)].len()
                },
            },
    {
        let k = to_storage_key(key);
        match store.get_kv(&k) {
            None => Ok(Self::new(key)),
            Some(bytes) => match Self::decode(bytes.as_slice()) {
                Ok(m) => {
                    let mut m = m;
                    m.storage_key = k;
                    Ok(m)
                },
                Err(e) => Err(e),
            },
        }
    }
}

} // verus!
