use storey::container::Storable;
use storey::encoding::Encoding;
use storey::encoding::U64DecodeError;
use storey::encoding::U64LeEncoding;
use storey::item::Item;
use storey::item::ItemKeyDecodeError;
use storey::item::TryGetError;
use storey::item::UpdateError;
use storey::map::KVDecodeError;
use storey::map::MapContainer;
use storey::store::Store;

#[test]
fn basic() {
    let mut storage = Store::new();

    let item0 = Item::<u64, U64LeEncoding>::new(0);
    item0.access().set(&mut storage, &42).unwrap();

    let item1 = Item::<u64, U64LeEncoding>::new(1);
    let access1 = item1.access();

    assert_eq!(item0.access().get(&storage).unwrap(), Some(42));
    assert_eq!(storage.get(&[0]), Some(42u64.to_le_bytes().to_vec()));
    assert_eq!(access1.get(&storage).unwrap(), None);
    assert_eq!(storage.get(&[1]), None);
}

#[test]
fn encode_decode_round_trip() {
    for v in [0u64, 1, 42, 255, 256, u64::MAX] {
        let bytes = U64LeEncoding::encode(&v).unwrap();
        assert_eq!(bytes, v.to_le_bytes().to_vec());
        assert_eq!(U64LeEncoding::decode(&bytes).unwrap(), v);
    }
}

#[test]
fn decode_wrong_length_fails() {
    assert_eq!(U64LeEncoding::decode(&[]), Err(U64DecodeError));
    assert_eq!(U64LeEncoding::decode(&[1, 2, 3]), Err(U64DecodeError));
    assert_eq!(U64LeEncoding::decode(&[0; 9]), Err(U64DecodeError));
}

#[test]
fn set_then_get() {
    let mut storage = Store::new();
    let item = Item::<u64, U64LeEncoding>::new(5);
    assert_eq!(item.access().get(&storage).unwrap(), None);
    item.access().set(&mut storage, &7).unwrap();
    assert_eq!(item.access().get(&storage).unwrap(), Some(7));
    item.access().set(&mut storage, &8).unwrap();
    assert_eq!(item.access().get(&storage).unwrap(), Some(8));
}

#[test]
fn remove_then_get() {
    let mut storage = Store::new();
    let item = Item::<u64, U64LeEncoding>::new(5);
    item.access().set(&mut storage, &7).unwrap();
    item.access().remove(&mut storage);
    assert_eq!(item.access().get(&storage).unwrap(), None);
    // removing a never-set key is not an error
    let other = Item::<u64, U64LeEncoding>::new(6);
    other.access().remove(&mut storage);
    assert_eq!(other.access().get(&storage).unwrap(), None);
}

#[test]
fn sibling_namespaces_disjoint() {
    let mut storage = Store::new();
    let item0 = Item::<u64, U64LeEncoding>::new(0);
    let item1 = Item::<u64, U64LeEncoding>::new(1);
    let map = MapContainer::<u64, Item<u64, U64LeEncoding>>::new(vec![2]);

    item0.access().set(&mut storage, &10).unwrap();
    map.access().get(&77).set(&mut storage, &20).unwrap();

    assert_eq!(item0.access().get(&storage).unwrap(), Some(10));
    assert_eq!(item1.access().get(&storage).unwrap(), None);

    item1.access().set(&mut storage, &30).unwrap();
    item1.access().remove(&mut storage);
    assert_eq!(item0.access().get(&storage).unwrap(), Some(10));
    let mut it = map.access().iter(&storage, None, None);
    match it.next() {
        Some(Ok(((k, ()), v))) => {
            assert_eq!(k, 77);
            assert_eq!(v, 20);
        }
        _ => panic!("expected one decoded entry"),
    }
    assert!(it.next().is_none());
}

#[test]
fn try_get_variants() {
    let mut storage = Store::new();
    let item = Item::<u64, U64LeEncoding>::new(0);
    assert!(matches!(
        item.access().try_get(&storage),
        Err(TryGetError::Empty)
    ));
    item.access().set(&mut storage, &42).unwrap();
    assert!(matches!(item.access().try_get(&storage), Ok(42)));
    storage.set(&[0], &[1, 2, 3]);
    assert!(matches!(
        item.access().try_get(&storage),
        Err(TryGetError::Decode(U64DecodeError))
    ));
}

#[test]
fn get_or_default() {
    let mut storage = Store::new();
    let item = Item::<u64, U64LeEncoding>::new(0);
    assert_eq!(item.access().get_or(&storage, 42).unwrap(), 42);
    item.access().set(&mut storage, &7).unwrap();
    assert_eq!(item.access().get_or(&storage, 42).unwrap(), 7);
}

#[test]
fn update_read_modify_write() {
    let mut storage = Store::new();
    let item = Item::<u64, U64LeEncoding>::new(0);
    assert!(item
        .access()
        .update(&mut storage, |old| old.unwrap_or(10))
        .is_ok());
    assert_eq!(item.access().get(&storage).unwrap(), Some(10));
    assert!(item
        .access()
        .update(&mut storage, |old| old.unwrap() + 1)
        .is_ok());
    assert_eq!(item.access().get(&storage).unwrap(), Some(11));
}

#[test]
fn update_decode_error() {
    let mut storage = Store::new();
    storage.set(&[0], &[1, 2, 3]);
    let item = Item::<u64, U64LeEncoding>::new(0);
    assert!(matches!(
        item.access().update(&mut storage, |old| old.unwrap_or(0)),
        Err(UpdateError::Decode(U64DecodeError))
    ));
    // the failed update wrote nothing
    assert_eq!(storage.get(&[0]), Some(vec![1, 2, 3]));
}

#[test]
fn item_key_must_be_empty() {
    type It = Item<u64, U64LeEncoding>;
    assert_eq!(It::decode_key(&[]), Ok(()));
    assert_eq!(It::decode_key(&[1]), Err(ItemKeyDecodeError));
}

#[test]
fn key_composition_round_trip() {
    type M = MapContainer<u64, Item<u64, U64LeEncoding>>;
    let mut encoded = vec![8u8];
    encoded.extend_from_slice(&5u64.to_le_bytes());
    assert_eq!(M::decode_key(&encoded), Ok((5, ())));

    type M2 = MapContainer<u64, MapContainer<u64, Item<u64, U64LeEncoding>>>;
    let mut nested = vec![8u8];
    nested.extend_from_slice(&1u64.to_le_bytes());
    nested.push(8);
    nested.extend_from_slice(&2u64.to_le_bytes());
    assert_eq!(M2::decode_key(&nested), Ok((1, (2, ()))));
}

#[test]
fn map_key_decode_rejects_malformed() {
    type M = MapContainer<u64, Item<u64, U64LeEncoding>>;
    // empty: no length byte
    assert_eq!(M::decode_key(&[]), Err(()));
    // length byte claims more bytes than remain
    assert_eq!(M::decode_key(&[5, 1, 2]), Err(()));
    // segment is not a valid key encoding (7 bytes, not 8)
    assert_eq!(M::decode_key(&[7, 1, 2, 3, 4, 5, 6, 7]), Err(()));
    // trailing garbage after the segment: the item's suffix must be empty
    let mut k = vec![8u8];
    k.extend_from_slice(&5u64.to_le_bytes());
    k.push(99);
    assert_eq!(M::decode_key(&k), Err(()));
}

#[test]
fn map_entry_layout() {
    let mut storage = Store::new();
    let map = MapContainer::<u64, Item<u64, U64LeEncoding>>::new(vec![3]);
    map.access().get(&5).set(&mut storage, &42).unwrap();
    let mut raw_key = vec![3u8, 8];
    raw_key.extend_from_slice(&5u64.to_le_bytes());
    assert_eq!(storage.get(&raw_key), Some(42u64.to_le_bytes().to_vec()));
    assert_eq!(map.access().get(&5).get(&storage).unwrap(), Some(42));
}

#[test]
fn iteration_complete() {
    let mut storage = Store::new();
    let map = MapContainer::<u64, Item<u64, U64LeEncoding>>::new(vec![9]);
    let a = map.access();
    a.get(&3).set(&mut storage, &30).unwrap();
    a.get(&1).set(&mut storage, &10).unwrap();
    a.get(&2).set(&mut storage, &20).unwrap();

    let mut it = a.iter(&storage, None, None);
    let mut seen = Vec::new();
    while let Some(entry) = it.next() {
        match entry {
            Ok(((k, ()), v)) => seen.push((k, v)),
            Err(_) => panic!("unexpected decode error"),
        }
    }
    // ascending byte order of the little-endian segments
    assert_eq!(seen, vec![(1, 10), (2, 20), (3, 30)]);
}

#[test]
fn iteration_range() {
    let mut storage = Store::new();
    let map = MapContainer::<u64, Item<u64, U64LeEncoding>>::new(vec![9]);
    let a = map.access();
    for k in [1u64, 2, 3] {
        a.get(&k).set(&mut storage, &(k * 10)).unwrap();
    }
    // the relative key of segment 2 starts its length-prefixed encoding
    let mut from = vec![8u8];
    from.extend_from_slice(&2u64.to_le_bytes());
    let mut it = a.iter(&storage, Some(&from), None);
    let mut seen = Vec::new();
    while let Some(entry) = it.next() {
        match entry {
            Ok(((k, ()), v)) => seen.push((k, v)),
            Err(_) => panic!("unexpected decode error"),
        }
    }
    assert_eq!(seen, vec![(2, 20), (3, 30)]);
}

#[test]
fn per_item_error_isolation() {
    let mut storage = Store::new();
    let map = MapContainer::<u64, Item<u64, U64LeEncoding>>::new(vec![9]);
    let a = map.access();
    for k in [1u64, 2, 3] {
        a.get(&k).set(&mut storage, &(k * 10)).unwrap();
    }
    // corrupt the stored value of entry 2 in place
    let mut raw_key = vec![9u8, 8];
    raw_key.extend_from_slice(&2u64.to_le_bytes());
    storage.set(&raw_key, &[1, 2, 3]);

    let mut it = a.iter(&storage, None, None);
    match it.next() {
        Some(Ok(((1, ()), 10))) => {}
        _ => panic!("expected entry 1 intact"),
    }
    match it.next() {
        Some(Err(KVDecodeError::Value(U64DecodeError))) => {}
        _ => panic!("expected a value decode error for entry 2"),
    }
    match it.next() {
        Some(Ok(((3, ()), 30))) => {}
        _ => panic!("expected entry 3 intact"),
    }
    assert!(it.next().is_none());
}

#[test]
fn corrupt_key_reported_as_key_error() {
    let mut storage = Store::new();
    let map = MapContainer::<u64, Item<u64, U64LeEncoding>>::new(vec![9]);
    let a = map.access();
    a.get(&1).set(&mut storage, &10).unwrap();
    // a key whose length byte claims bytes that are not there; 200 > 8, so
    // it sorts after the valid entry
    storage.set(&[9, 200], &[0; 8]);

    let mut it = a.iter(&storage, None, None);
    match it.next() {
        Some(Ok(((1, ()), 10))) => {}
        _ => panic!("expected the valid entry first"),
    }
    match it.next() {
        Some(Err(KVDecodeError::Key(()))) => {}
        _ => panic!("expected a key decode error"),
    }
    assert!(it.next().is_none());
}

#[test]
fn short_segments_compose() {
    let mut storage = Store::new();
    // u32 segments use 4-byte encodings: the length byte adapts
    let map = MapContainer::<u32, MapContainer<u64, Item<u64, U64LeEncoding>>>::new(vec![4]);
    let a = map.access();
    a.get(&9).get(&1).set(&mut storage, &77).unwrap();

    let mut raw_key = vec![4u8, 4];
    raw_key.extend_from_slice(&9u32.to_le_bytes());
    raw_key.push(8);
    raw_key.extend_from_slice(&1u64.to_le_bytes());
    assert_eq!(storage.get(&raw_key), Some(77u64.to_le_bytes().to_vec()));

    let mut it = a.iter(&storage, None, None);
    match it.next() {
        Some(Ok(((9, (1, ())), 77))) => {}
        _ => panic!("expected the mixed-width entry to decode"),
    }
    assert!(it.next().is_none());
}

#[test]
fn nested_maps_compose() {
    let mut storage = Store::new();
    let outer = MapContainer::<u64, MapContainer<u64, Item<u64, U64LeEncoding>>>::new(vec![7]);
    let a = outer.access();
    a.get(&1).get(&2).set(&mut storage, &5).unwrap();

    let mut raw_key = vec![7u8, 8];
    raw_key.extend_from_slice(&1u64.to_le_bytes());
    raw_key.push(8);
    raw_key.extend_from_slice(&2u64.to_le_bytes());
    assert_eq!(storage.get(&raw_key), Some(5u64.to_le_bytes().to_vec()));

    assert_eq!(a.get(&1).get(&2).get(&storage).unwrap(), Some(5));

    let mut it = a.iter(&storage, None, None);
    match it.next() {
        Some(Ok(((1, (2, ())), 5))) => {}
        _ => panic!("expected the nested entry to decode"),
    }
    assert!(it.next().is_none());
}
