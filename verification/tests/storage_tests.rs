use contract_sdk::codec::Record;
use contract_sdk::storage::{to_storage_key, Storage, StorageABI};
use contract_sdk::util::{bytes_to_u32, bytes_to_u64, random_in_range, u32_to_bytes, u64_to_bytes};

#[test]
fn from_short_storage_key_is_padded() {
    assert_eq!(
        b"my key\0\0\0\0\0\0\0\0\0\0\0\0\0\0\0\0\0\0\0\0\0\0\0\0\0\0",
        &to_storage_key("my key".as_bytes()),
    );
}

#[test]
fn from_long_storage_key_is_truncated() {
    let key = &to_storage_key("myreallylongstoragekeythatislongerthan32bytes".as_bytes());
    let target = &b"myreallylongstoragekeythatislongerthan32bytes"[..32];
    assert_eq!(target, key);
}

#[test]
fn exactly_32_bytes_pass_through_and_empty_derives_to_zero() {
    let exact = [7u8; 32];
    assert_eq!(to_storage_key(&exact), exact);
    assert_eq!(to_storage_key(b""), [0u8; 32]);
}

#[test]
fn store_put_get_round_trips_typed_values() {
    let mut store = Storage::new();
    store.put::<u64>(b"answer", &42u64);
    assert_eq!(store.get::<u64>(b"answer"), Some(42u64));
    assert_eq!(store.get::<u64>(b"missing"), None);

    let r = Record {
        field1: 9,
        field2: vec![1, 2],
    };
    store.put::<Record>(b"rec", &r);
    assert_eq!(store.get::<Record>(b"rec"), Some(r));
}

#[test]
fn store_remove_writes_the_sentinel_and_reads_back_as_absent() {
    let mut store = Storage::new();
    store.put::<u32>(b"gone", &5u32);
    assert_eq!(store.get::<u32>(b"gone"), Some(5u32));
    store.remove(b"gone");
    assert_eq!(store.get::<u32>(b"gone"), None);
    assert!(store.get_kv(&to_storage_key(b"gone")).is_none());
}

#[test]
fn last_write_wins_in_the_store() {
    let mut store = Storage::new();
    store.put::<u32>(b"k", &1u32);
    store.put::<u32>(b"k", &2u32);
    assert_eq!(store.get::<u32>(b"k"), Some(2u32));
}

#[test]
fn integer_byte_conversions_are_little_endian() {
    assert_eq!(u32_to_bytes(0x0102_0304), vec![4, 3, 2, 1]);
    assert_eq!(bytes_to_u32([4, 3, 2, 1]), 0x0102_0304);
    assert_eq!(
        u64_to_bytes(0x0102_0304_0506_0708),
        vec![8, 7, 6, 5, 4, 3, 2, 1]
    );
    assert_eq!(bytes_to_u64([8, 7, 6, 5, 4, 3, 2, 1]), 0x0102_0304_0506_0708);
    assert_eq!(bytes_to_u32(u32_to_bytes(7).try_into().unwrap()), 7);
}

#[test]
fn random_in_range_is_deterministic_in_the_seed() {
    let seed = [1u8, 0, 0, 0, 0, 0, 0, 0];
    assert_eq!(random_in_range(&seed, 10, 5), 11);
    let all_ones = [0xFFu8; 8];
    // 2^64 - 1 ends in 5, so modulo 10 the draw is 5
    assert_eq!(random_in_range(&all_ones, 0, 10), 5);
    let long_seed = [1u8, 0, 0, 0, 0, 0, 0, 0, 99, 99];
    assert_eq!(random_in_range(&long_seed, 0, u64::MAX), 1);
}
