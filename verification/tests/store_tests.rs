use rusted_post::record::{RCLabelPair, RCRecord};
use rusted_post::store::RecordStore;

fn rec(val: String) -> RCRecord {
    RCRecord {
        label_pairs: vec![RCLabelPair::new("n", val.as_str())],
    }
}

#[test]
fn ids_are_dense_and_duplicates_are_rejected() {
    let mut store = RecordStore::new();
    let (id0, stored) = store.add(rec("a".to_string())).unwrap();
    assert_eq!(id0, 0);
    assert_eq!(stored.label_pairs[0].val.as_str(), "a");
    let (id1, _) = store.add(rec("b".to_string())).unwrap();
    assert_eq!(id1, 1);
    // the same content again allocates nothing
    assert!(store.add(rec("a".to_string())).is_none());
    let (id2, _) = store.add(rec("c".to_string())).unwrap();
    assert_eq!(id2, 2);
}

#[test]
fn get_and_multi_get_and_get_all() {
    let mut store = RecordStore::new();
    for i in 0..5u32 {
        store.add(rec(format!("v{}", i))).unwrap();
    }
    assert_eq!(store.get(3).unwrap().label_pairs[0].val.as_str(), "v3");
    assert!(store.get(5).is_none());

    let recs = store.multi_get(vec![4, 0, 2]);
    assert_eq!(recs.len(), 3);
    assert_eq!(recs[0].label_pairs[0].val.as_str(), "v4");
    assert_eq!(recs[1].label_pairs[0].val.as_str(), "v0");
    assert_eq!(recs[2].label_pairs[0].val.as_str(), "v2");
    // unused ids are skipped, best effort
    let recs = store.multi_get(vec![1, 99]);
    assert_eq!(recs.len(), 1);

    let capped = store.get_all(3);
    assert_eq!(capped.len(), 3);
    assert_eq!(capped[2].label_pairs[0].val.as_str(), "v2");
    let all = store.get_all(100);
    assert_eq!(all.len(), 5);
}

#[test]
fn ids_cross_the_chunk_boundary() {
    // ids encode (chunk << 16) | offset over chunks of 65,536 slots: the
    // 65,537th record opens the second chunk
    let mut store = RecordStore::new();
    for i in 0..65537u32 {
        let (id, _) = store.add(rec(format!("v{}", i))).unwrap();
        assert_eq!(id, i);
    }
    assert_eq!(store.get(65535).unwrap().label_pairs[0].val.as_str(), "v65535");
    assert_eq!(store.get(65536).unwrap().label_pairs[0].val.as_str(), "v65536");
    assert!(store.get(65537).is_none());
    let status = store.get_status();
    assert_eq!(status.id_store_size, 65537);
}
