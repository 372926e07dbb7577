//! Storage-key derivation and the two-operation key-value store contract,
//! together with an in-memory store implementing it.
//!
//! The store knows only two operations: read the bytes under a 32-byte key,
//! and write bytes under a 32-byte key. It has no delete: removal writes a
//! fixed all-zero sentinel in place of the record. This crate fixes the
//! reading policy once: a record holding exactly the zero sentinel reads
//! back as absent.

use vstd::prelude::*;

verus! {

use crate::assoc::{lemma_map_of_contains, map_of};
use crate::codec::Codec;
use vstd::slice::slice_to_vec;

/// A key for the underlying store: always exactly 32 bytes.
pub type StorageKey = [u8; 32];

/// What an arbitrary byte string derives to: its first 32 bytes if it is long
/// enough, otherwise the string left-aligned and zero-padded to 32 bytes.
pub open spec fn spec_storage_key(k: Seq<u8>) -> Seq<u8> {
    Seq::new(32, |i: int| if i < k.len() { k[i] } else { 0u8 })
}

/// The fixed all-zero byte sequence written in place of deletion.
pub open spec fn spec_zero_sentinel() -> Seq<u8> {
    Seq::new(32, |i: int| 0u8)
}

/// Derive a 32-byte storage key from an arbitrary byte string: truncate a
/// long string, zero-pad a short one. Pure and total; two inputs that agree
/// on their first 32 bytes (after padding) collide by design, and the empty
/// input derives to the all-zero key, which coincides with the reserved
/// sentinel key. Both collisions are accepted limitations, not errors.
pub fn to_storage_key(k: &[u8]) -> (r: StorageKey)
    ensures
        r@ == spec_storage_key(k@),
{
    let mut buf: [u8; 32] = [0u8; 32];
    let n: usize = if k.len() > 32 {
        32
    } else {
        k.len()
    };
    let mut i: usize = 0;
    while i < n
        invariant
            0 <= i <= n <= 32,
            n <= k@.len(),
            buf@.len() == 32,
            forall|j: int| 0 <= j < i ==> buf@[j] == k@[j],
            forall|j: int| i <= j < 32 ==> buf@[j] == 0u8,
        decreases n - i,
    {
        buf[i] = k[i];
        i += 1;
    }
    proof {
        assert(buf@ =~= spec_storage_key(k@));
    }
    buf
}

/// Whether two storage keys hold the same bytes.
fn storage_key_eq(a: &StorageKey, b: &StorageKey) -> (r: bool)
    ensures
        r == (a@ == b@),
{
    let mut i: usize = 0;
    while i < 32
        invariant
            0 <= i <= 32,
            forall|j: int| 0 <= j < i ==> a@[j] == b@[j],
        decreases 32 - i,
    {
        if a[i] != b[i] {
            return false;
        }
        i += 1;
    }
    proof {
        assert(a@ =~= b@);
    }
    true
}

/// Whether `v` holds exactly the zero sentinel.
fn is_zero_sentinel(v: &Vec<u8>) -> (r: bool)
    ensures
        r == (v@ == spec_zero_sentinel()),
{
    if v.len() != 32 {
        proof {
            assert(v@ != spec_zero_sentinel());
        }
        return false;
    }
    let mut i: usize = 0;
    while i < 32
        invariant
            0 <= i <= 32,
            v@.len() == 32,
            forall|j: int| 0 <= j < i ==> v@[j] == 0u8,
        decreases 32 - i,
    {
        if v[i] != 0 {
            proof {
                assert(v@[i as int] != spec_zero_sentinel()[i as int]);
            }
            return false;
        }
        i += 1;
    }
    proof {
        assert(v@ =~= spec_zero_sentinel());
    }
    true
}

/// A type implementing key-value storage: only two operations, read and
/// write, over 32-byte keys. `store()` is the abstract content, the bytes
/// last written under every key ever written.
pub trait StorageABI: Sized {
    /// The store's abstract content.
    spec fn store(&self) -> Map<Seq<u8>, Seq<u8>>;

    /// Read the record under `key`: its bytes, or `None` when nothing was
    /// ever written there. A record holding exactly the zero sentinel reads
    /// back as absent; that is this crate's fixed reading policy for the
    /// delete-less store.
    fn get_kv(&self, key: &StorageKey) -> (r: Option<Vec<u8>>)
        ensures
            match r {
                Some(v) => self.store().contains_key(key@) && self.store()[key@] == v@ && v@
                    != spec_zero_sentinel(),
                None => !self.store().contains_key(key@) || self.store()[key@]
                    == spec_zero_sentinel(),
            },
    ;

    /// Write `value`'s bytes under `key`; when `value` is absent, write the
    /// fixed zero sentinel instead — never a true delete. Last write wins.
    fn put_kv(&mut self, key: &StorageKey, value: Option<&[u8]>)
        ensures
            final(self).store() == old(self).store().insert(
                key@,
                match value {
                    Some(v) => v@,
                    None => spec_zero_sentinel(),
                },
            ),
    ;
}

/// An in-memory store: an append-only log of (key, bytes) records, where a
/// later record shadows an earlier one under the same key. It stands in for
/// the opaque external store wherever one is needed, tests included.
pub struct Storage {
    records: Vec<(StorageKey, Vec<u8>)>,
}

/// The views of a sequence of store records.
pub(crate) open spec fn record_views(s: Seq<(StorageKey, Vec<u8>)>) -> Seq<(Seq<u8>, Seq<u8>)> {
    s.map_values(|p: (StorageKey, Vec<u8>)| (p.0@, p.1@))
}

impl Storage {
    /// Create an empty store: nothing was ever written.
    pub fn new() -> (r: Self)
        ensures
            r.store() == Map::<Seq<u8>, Seq<u8>>::empty(),
    {
        let r = Storage { records: Vec::new() };
        proof {
            assert(record_views(r.records@) =~= Seq::empty());
        }
        r
    }

    /// Encode `value` and write it under the storage key derived from `key`.
    /// A value whose whole encoding happens to equal the 32-byte zero
    /// sentinel would read back as absent; none of this crate's own types
    /// can encode to it, but a caller-defined one could.
    pub fn put<V: Codec>(&mut self, key: &[u8], value: &V)
        requires
            value.wf(),
        ensures
            final(self).store().contains_key(spec_storage_key(key@)),
            <V as Codec>::spec_decode(final(self).store()[spec_storage_key(key@)]) == Some(
                (value@, final(self).store()[spec_storage_key(key@)].len() as int),
            ),
            final(self).store().remove(spec_storage_key(key@)) == old(self).store().remove(
                spec_storage_key(key@),
            ),
    {
        let k = to_storage_key(key);
        let mut data: Vec<u8> = Vec::new();
        value.encode_into(&mut data);
        self.put_kv(&k, Some(data.as_slice()));
        proof {
            assert(data@.skip(0) =~= data@);
            assert(final(self).store().remove(spec_storage_key(key@)) =~= old(
                self,
            ).store().remove(spec_storage_key(key@)));
        }
    }

    /// Read and decode the value under the storage key derived from `key`:
    /// `Some` exactly when a record is present, is not the zero sentinel,
    /// and decodes as one value consuming every byte; `None` otherwise.
    pub fn get<V: Codec>(&self, key: &[u8]) -> (r: Option<V>)
        ensures
            match r {
                Some(v) => {
                    &&& self.store().contains_key(spec_storage_key(key@))
                    &&& self.store()[spec_storage_key(key@)] != spec_zero_sentinel()
                    &&& <V as Codec>::spec_decode(self.store()[spec_storage_key(key@)]) == Some(
                        (v@, self.store()[spec_storage_key(key@)].len() as int),
                    )
                    &&& v.wf()
                },
                None => !self.store().contains_key(spec_storage_key(key@)) || self.store()[
                    spec_storage_key(key@)
                ] == spec_zero_sentinel() || !(<V as Codec>::spec_decode(
                    self.store()[spec_storage_key(key@)],
                ) matches Some(p) && p.1 == self.store()[spec_storage_key(key@)].len()),
            },
    {
        let k = to_storage_key(key);
        match self.get_kv(&k) {
            None => None,
            Some(bytes) => {
                proof {
                    assert(bytes@.skip(0) =~= bytes@);
                }
                match V::decode_from(bytes.as_slice(), 0) {
                    None => None,
                    Some((v, n)) => {
                        if n == bytes.len() {
                            Some(v)
                        } else {
                            None
                        }
                    },
                }
            },
        }
    }

    /// Remove the record under the storage key derived from `key` by
    /// writing the zero sentinel over it; the store keeps a record, but it
    /// reads back as absent.
    pub fn remove(&mut self, key: &[u8])
        ensures
            final(self).store() == old(self).store().insert(
                spec_storage_key(key@),
                spec_zero_sentinel(),
            ),
    {
        let k = to_storage_key(key);
        self.put_kv(&k, None);
    }
}

/// With no later record under the same key, the record at an index gives
/// the store's content under its key.
proof fn lemma_map_of_last_index(s: Seq<(Seq<u8>, Seq<u8>)>, i: int, k: Seq<u8>)
    requires
        0 <= i < s.len(),
        s[i].0 == k,
        forall|j: int| i < j < s.len() ==> s[j].0 != k,
    ensures
        map_of(s).contains_key(k),
        map_of(s)[k] == s[i].1,
    decreases s.len(),
{
    if i == s.len() - 1 {
    } else {
        assert(s.last().0 != k);
        assert(forall|j: int| 0 <= j < s.drop_last().len() ==> s.drop_last()[j] == s[j]);
        lemma_map_of_last_index(s.drop_last(), i, k);
    }
}

impl StorageABI for Storage {
    closed spec fn store(&self) -> Map<Seq<u8>, Seq<u8>> {
        map_of(record_views(self.records@))
    }

    fn get_kv(&self, key: &StorageKey) -> (r: Option<Vec<u8>>) {
        let mut i: usize = self.records.len();
        while i > 0
            invariant
                0 <= i <= self.records@.len(),
                forall|j: int| i <= j < self.records@.len() ==> self.records@[j].0@ != key@,
            decreases i,
        {
            i -= 1;
            if storage_key_eq(&self.records[i].0, key) {
                proof {
                    let rv = record_views(self.records@);
                    assert(rv[i as int].0 == key@);
                    assert(forall|j: int| i < j < rv.len() ==> rv[j].0 != key@);
                    lemma_map_of_last_index(rv, i as int, key@);
                }
                let found = &self.records[i].1;
                if is_zero_sentinel(found) {
                    return None;
                }
                return Some(slice_to_vec(found.as_slice()));
            }
        }
        proof {
            lemma_map_of_contains(record_views(self.records@), key@);
        }
        None
    }

    fn put_kv(&mut self, key: &StorageKey, value: Option<&[u8]>) {
        let bytes: Vec<u8> = match value {
            Some(v) => slice_to_vec(v),
            None => {
                let z: [u8; 32] = [0u8; 32];
                let zv = slice_to_vec(z.as_slice());
                proof {
                    assert(zv@ =~= spec_zero_sentinel());
                }
                zv
            },
        };
        let ghost s0 = record_views(self.records@);
        self.records.push((*key, bytes));
        proof {
            let s1 = record_views(self.records@);
            assert(s1.drop_last() =~= s0);
            assert(final(self).store() =~= old(self).store().insert(
                key@,
                match value {
                    Some(v) => v@,
                    None => spec_zero_sentinel(),
                },
            ));
        }
    }
}

} // verus!
