use contract_sdk::codec::{Codec, DecodeError, Record};
use contract_sdk::map::{LoadError, PersistentMap};
use contract_sdk::storage::{to_storage_key, Storage, StorageABI};

#[test]
fn it_encodes_and_decodes_the_same() {
    let mut map: PersistentMap<u32, Record> = PersistentMap::default();
    map.insert(
        1,
        Record {
            field1: 2u32,
            field2: vec![1, 2, 3, 4],
        },
    );
    map.insert(
        2,
        Record {
            field1: 3u32,
            field2: vec![5, 6, 7, 8],
        },
    );
    let buf = map.encode();
    let decoded_map: PersistentMap<u32, Record> = PersistentMap::decode(&buf).unwrap();

    assert_eq!(map.get(&1).unwrap(), decoded_map.get(&1).unwrap());
    assert_eq!(map.get(&2).unwrap(), decoded_map.get(&2).unwrap());
}

#[test]
fn nested_maps_work() {
    let mut map: PersistentMap<u32, PersistentMap<u32, Record>> = PersistentMap::default();
    let v = Record {
        field1: 2u32,
        field2: vec![1, 2, 3, 4],
    };

    let mut nested_map: PersistentMap<u32, Record> = PersistentMap::default();
    nested_map.insert(1, v.clone());

    map.insert(1, nested_map.clone());
    map.insert(2, nested_map);

    let buf = map.encode();
    let decoded_map: PersistentMap<u32, PersistentMap<u32, Record>> =
        PersistentMap::decode(&buf).unwrap();

    assert_eq!(
        map.get(&1).unwrap().get(&1).unwrap(),
        decoded_map.get(&1).unwrap().get(&1).unwrap()
    );
    assert_eq!(
        map.get(&2).unwrap().get(&1).unwrap(),
        decoded_map.get(&2).unwrap().get(&1).unwrap()
    );
}

#[test]
fn load_or_create_preserves_storage_key() {
    let store = Storage::new();
    let map: PersistentMap<u32, u32> = PersistentMap::load_or_create(b"my map", &store).unwrap();
    assert_eq!(to_storage_key(b"my map"), *map.storage_key());
}

#[test]
fn load_or_create_on_absence_then_flush_and_load() {
    let mut store = Storage::new();
    let mut map: PersistentMap<u32, u64> =
        PersistentMap::load_or_create(b"fresh-name", &store).unwrap();
    assert!(map.is_empty());
    assert_eq!(map.len(), 0);

    map.insert(3, 30);
    map.insert(4, 40);
    map.flush(&mut store);

    let loaded: PersistentMap<u32, u64> = PersistentMap::load(b"fresh-name", &store).unwrap();
    assert_eq!(loaded.len(), 2);
    assert_eq!(loaded.get(&3), Some(&30));
    assert_eq!(loaded.get(&4), Some(&40));
    assert_eq!(loaded.get(&5), None);
}

#[test]
fn strict_load_on_absence_reports_unavailable() {
    let store = Storage::new();
    let r: Result<PersistentMap<u32, u32>, LoadError> =
        PersistentMap::load(b"never-written-name", &store);
    assert_eq!(r.err(), Some(LoadError::Unavailable));
}

#[test]
fn load_of_removed_record_reports_unavailable() {
    let mut store = Storage::new();
    let mut map: PersistentMap<u32, u32> = PersistentMap::new(b"gone");
    map.insert(1, 1);
    map.flush(&mut store);
    store.remove(b"gone");
    let r: Result<PersistentMap<u32, u32>, LoadError> = PersistentMap::load(b"gone", &store);
    assert_eq!(r.err(), Some(LoadError::Unavailable));
}

#[test]
fn load_of_malformed_record_reports_decode_error() {
    let mut store = Storage::new();
    // Three bytes cannot even hold the entry count.
    store.put_kv(&to_storage_key(b"bad"), Some(&[1, 2, 3]));
    let r: Result<PersistentMap<u32, u32>, LoadError> = PersistentMap::load(b"bad", &store);
    assert_eq!(r.err(), Some(LoadError::Decode(DecodeError::Truncated)));

    // A zero count followed by a stray byte leaves the byte unconsumed.
    store.put_kv(&to_storage_key(b"trail"), Some(&[0, 0, 0, 0, 0, 0, 0, 0, 9]));
    let r2: Result<PersistentMap<u32, u32>, LoadError> = PersistentMap::load(b"trail", &store);
    assert_eq!(r2.err(), Some(LoadError::Decode(DecodeError::TrailingBytes)));

    // load_or_create reports the same errors rather than an empty map.
    let r3: Result<PersistentMap<u32, u32>, DecodeError> =
        PersistentMap::load_or_create(b"bad", &store);
    assert_eq!(r3.err(), Some(DecodeError::Truncated));
}

#[test]
fn concrete_scenario_round_trips_through_the_store() {
    let mut store = Storage::new();
    let mut map: PersistentMap<u32, Record> = PersistentMap::new(b"my map");
    map.insert(
        1,
        Record {
            field1: 2,
            field2: vec![1, 2, 3, 4],
        },
    );
    map.insert(
        2,
        Record {
            field1: 3,
            field2: vec![5, 6, 7, 8],
        },
    );
    map.flush(&mut store);

    let fresh: PersistentMap<u32, Record> =
        PersistentMap::load_or_create(b"my map", &store).unwrap();
    let r1 = fresh.get(&1).unwrap();
    assert_eq!(r1.field1, 2);
    assert_eq!(r1.field2, vec![1, 2, 3, 4]);
    let r2 = fresh.get(&2).unwrap();
    assert_eq!(r2.field1, 3);
    assert_eq!(r2.field2, vec![5, 6, 7, 8]);
    assert_eq!(*fresh.storage_key(), to_storage_key(b"my map"));
}

#[test]
fn remove_makes_the_key_absent_in_memory() {
    let mut map: PersistentMap<u32, u32> = PersistentMap::new(b"rm");
    map.insert(1, 10);
    map.insert(2, 20);
    map.remove(&1);
    assert_eq!(map.get(&1), None);
    assert!(!map.contains_key(&1));
    assert_eq!(map.get(&2), Some(&20));
    assert_eq!(map.len(), 1);
    // removing an absent key is a no-op
    map.remove(&7);
    assert_eq!(map.len(), 1);
}

#[test]
fn get_mut_updates_in_place() {
    let mut store = Storage::new();
    let mut map: PersistentMap<u32, u32> = PersistentMap::new(b"mut");
    map.insert(1, 10);
    *map.get_mut(&1).unwrap() = 99;
    assert!(map.get_mut(&2).is_none());
    map.flush(&mut store);
    let loaded: PersistentMap<u32, u32> = PersistentMap::load(b"mut", &store).unwrap();
    assert_eq!(loaded.get(&1), Some(&99));
}

#[test]
fn insert_replaces_and_iter_visits_every_entry() {
    let mut map: PersistentMap<u32, u32> = PersistentMap::new(b"it");
    map.insert(1, 10);
    map.insert(2, 20);
    map.insert(1, 11);
    assert_eq!(map.len(), 2);
    assert_eq!(map.get(&1), Some(&11));
    let mut seen = vec![];
    for (k, v) in map.iter() {
        seen.push((*k, *v));
    }
    seen.sort();
    assert_eq!(seen, vec![(1, 11), (2, 20)]);
}

#[test]
fn encode_produces_the_documented_byte_grammar() {
    let mut map: PersistentMap<u32, u32> = PersistentMap::new(b"g");
    map.insert(1, 10);
    let buf = map.encode();
    // entry count as a little-endian u64, then the key and value as
    // little-endian u32s
    assert_eq!(
        buf,
        vec![1, 0, 0, 0, 0, 0, 0, 0, 1, 0, 0, 0, 10, 0, 0, 0]
    );
}

#[test]
fn record_encoding_is_field1_then_length_prefixed_field2() {
    let r = Record {
        field1: 2,
        field2: vec![1, 2, 3, 4],
    };
    let mut buf: Vec<u8> = Vec::new();
    r.encode_into(&mut buf);
    assert_eq!(
        buf,
        vec![2, 0, 0, 0, 4, 0, 0, 0, 0, 0, 0, 0, 1, 2, 3, 4]
    );
    let (back, used) = Record::decode_from(&buf, 0).unwrap();
    assert_eq!(used, buf.len());
    assert_eq!(back, r);
}

#[test]
fn empty_map_round_trips_as_eight_zero_count_bytes() {
    let map: PersistentMap<u32, u32> = PersistentMap::new(b"e");
    let buf = map.encode();
    assert_eq!(buf, vec![0, 0, 0, 0, 0, 0, 0, 0]);
    let back: PersistentMap<u32, u32> = PersistentMap::decode(&buf).unwrap();
    assert!(back.is_empty());
}

#[test]
fn decode_lets_a_later_duplicate_pair_win() {
    // count 2, then the pairs (1, 10) and (1, 20); well-formed encodings
    // never hold duplicates, but a decoder replays entries in order
    let buf = vec![
        2, 0, 0, 0, 0, 0, 0, 0, 1, 0, 0, 0, 10, 0, 0, 0, 1, 0, 0, 0, 20, 0, 0, 0,
    ];
    let map: PersistentMap<u32, u32> = PersistentMap::decode(&buf).unwrap();
    assert_eq!(map.len(), 1);
    assert_eq!(map.get(&1), Some(&20));
}

#[test]
fn decode_rejects_truncated_and_trailing_input() {
    let r: Result<PersistentMap<u32, u32>, DecodeError> = PersistentMap::decode(&[]);
    assert_eq!(r.err(), Some(DecodeError::Truncated));

    let mut buf = PersistentMap::<u32, u32>::new(b"x").encode();
    buf.push(0);
    let r2: Result<PersistentMap<u32, u32>, DecodeError> = PersistentMap::decode(&buf);
    assert_eq!(r2.err(), Some(DecodeError::TrailingBytes));
}
