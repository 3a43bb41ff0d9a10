use onebrc::error::AggregateError;
use onebrc::map::{hash, ResultMap, StationMap};
use onebrc::temperature::Temperature;

#[test]
fn set_then_get() {
    let mut m = ResultMap::new();
    assert!(m.get(b"Hamburg").is_none());
    m.set(b"Hamburg", &Temperature::new(120)).unwrap();
    assert_eq!(m.get(b"Hamburg"), Some(Temperature::new(120)));
    m.set(b"Hamburg", &Temperature::new(-5)).unwrap();
    assert_eq!(m.get(b"Hamburg"), Some(Temperature::new(-5)));
    assert_eq!(m.entries().len(), 1);
}

#[test]
fn get_mut_changes_in_place() {
    let mut m = ResultMap::new();
    assert!(m.get_mut(b"a").is_none());
    m.set(b"a", &Temperature::new(10)).unwrap();
    m.get_mut(b"a").unwrap().update_single(30);
    let t = m.get(b"a").unwrap();
    assert_eq!((t.min, t.max, t.sum, t.count), (10, 30, 40, 2));
}

#[test]
fn colliding_keys_stay_apart() {
    let mut m: StationMap<u32, 4> = StationMap::new();
    m.set(b"a", &1).unwrap();
    m.set(b"b", &2).unwrap();
    m.set(b"c", &3).unwrap();
    assert_eq!(m.set(b"d", &4), Err(AggregateError::CapacityExceeded));
    m.set(b"b", &20).unwrap();
    assert_eq!((m.get(b"a"), m.get(b"b"), m.get(b"c"), m.get(b"d")), (Some(1), Some(20), Some(3), None));
    let mut keys: Vec<Vec<u8>> = m.entries().into_iter().map(|(k, _)| k).collect();
    keys.sort();
    assert_eq!(keys, vec![b"a".to_vec(), b"b".to_vec(), b"c".to_vec()]);
}

#[test]
fn tiny_table_has_one_slot() {
    let mut m: StationMap<u8, 2> = StationMap::new();
    m.set(b"x", &1).unwrap();
    assert_eq!(m.set(b"y", &2), Err(AggregateError::CapacityExceeded));
    assert_eq!(m.get(b"x"), Some(1));
}

#[test]
fn hash_reads_every_byte() {
    assert_eq!(hash(b""), 0);
    assert_eq!(hash(&[1]), 0x517c_c1b7_2722_0a95);
    assert_ne!(hash(b"abcXdef"), hash(b"abcYdef"));
    assert_ne!(hash(b"ab"), hash(b"ba"));
}
