use zstor_meta::meta::Checksum;
use zstor_meta::meta::Compression;
use zstor_meta::meta::Encryption;
use zstor_meta::meta::FailureMeta;
use zstor_meta::meta::MetaData;
use zstor_meta::meta::ShardInfo;
use zstor_meta::meta::SymmetricKey;
use zstor_meta::meta::ZdbConnectionInfo;
use zstor_meta::store::MemoryMetaStore;
use zstor_meta::store::MetaStore;

fn backend(n: u8) -> ZdbConnectionInfo {
    ZdbConnectionInfo::new(format!("10.0.0.{}:9900", n), Some(format!("ns-{}", n)), None)
}

fn meta_with_checksum(cs: Checksum) -> MetaData {
    MetaData::new(2, 1, cs, Encryption::Aes(SymmetricKey([1u8; 32])), Compression::Snappy)
}

#[test]
fn replaced_marking_is_idempotent() {
    let mut store = MemoryMetaStore::new();
    let ci = backend(1);
    let other = backend(2);
    assert_eq!(store.is_replaced(&ci), Ok(false));
    store.set_replaced(&ci).unwrap();
    assert_eq!(store.is_replaced(&ci), Ok(true));
    store.set_replaced(&ci).unwrap();
    assert_eq!(store.is_replaced(&ci), Ok(true));
    assert_eq!(store.is_replaced(&other), Ok(false));
}

#[test]
fn failure_queue_save_get_delete() {
    let mut store = MemoryMetaStore::new();
    store
        .save_failure("/data/report.pdf", &Some(String::from("/keys")), true)
        .unwrap();
    let fs = store.get_failures().unwrap();
    assert_eq!(fs.len(), 1);
    let expected = FailureMeta::new(
        String::from("/data/report.pdf"),
        Some(String::from("/keys")),
        true,
    );
    assert_eq!(fs[0], expected);

    store.delete_failure(&expected).unwrap();
    assert!(store.get_failures().unwrap().is_empty());

    // Deleting a non-existent entry neither errors nor alters the queue.
    store.delete_failure(&expected).unwrap();
    assert!(store.get_failures().unwrap().is_empty());
}

#[test]
fn delete_failure_removes_one_matching_entry() {
    let mut store = MemoryMetaStore::new();
    store.save_failure("/a", &None, false).unwrap();
    store.save_failure("/b", &None, false).unwrap();
    store.save_failure("/a", &None, false).unwrap();
    let target = FailureMeta::new(String::from("/a"), None, false);
    store.delete_failure(&target).unwrap();
    let fs = store.get_failures().unwrap();
    assert_eq!(fs.len(), 2);
    assert_eq!(fs[0].data_path(), "/b");
    assert_eq!(fs[1].data_path(), "/a");
}

#[test]
fn load_meta_absent_is_none_not_error() {
    let mut store = MemoryMetaStore::new();
    assert_eq!(store.load_meta("/never/saved"), Ok(None));
    assert_eq!(store.load_meta_by_key("never-saved"), Ok(None));
}

#[test]
fn save_meta_last_write_wins() {
    let mut store = MemoryMetaStore::new();
    let m1 = meta_with_checksum([1u8; 16]);
    let m2 = meta_with_checksum([2u8; 16]);
    store.save_meta("/data/file", &m1).unwrap();
    store.save_meta("/data/file", &m2).unwrap();
    let loaded = store.load_meta("/data/file").unwrap().expect("record saved");
    assert_eq!(loaded, m2);
}

#[test]
fn path_and_key_addressing_coexist() {
    let mut store = MemoryMetaStore::new();
    let by_path = meta_with_checksum([3u8; 16]);
    let by_key = meta_with_checksum([4u8; 16]);
    store.save_meta("shared-name", &by_path).unwrap();
    store.save_meta_by_key("shared-name", &by_key).unwrap();
    assert_eq!(store.load_meta("shared-name").unwrap(), Some(by_path));
    assert_eq!(store.load_meta_by_key("shared-name").unwrap(), Some(by_key));
}

#[test]
fn object_metas_lists_all_stored_records() {
    let mut store = MemoryMetaStore::new();
    let m1 = meta_with_checksum([1u8; 16]);
    let m2 = meta_with_checksum([2u8; 16]);
    store.save_meta("/data/a", &m1).unwrap();
    store.save_meta_by_key("b", &m2).unwrap();
    let all = store.object_metas().unwrap();
    assert_eq!(all.len(), 2);
    assert!(all.iter().any(|(k, m)| k == "/data/a" && *m == m1));
    assert!(all.iter().any(|(k, m)| k == "b" && *m == m2));
}

#[test]
fn scenario_encode_and_recover_report_pdf() {
    let mut m = MetaData::new(
        4,
        2,
        [0xffu8; 16],
        Encryption::Aes(SymmetricKey([9u8; 32])),
        Compression::Snappy,
    );
    let mut checksums: Vec<Checksum> = Vec::new();
    for i in 0..6usize {
        let c: Checksum = [i as u8 + 10; 16];
        checksums.push(c);
        m.add_shard(ShardInfo::new(i, c, vec![i as u64], backend(i as u8)));
    }
    let mut store = MemoryMetaStore::new();
    store.save_meta_by_key("report.pdf", &m).unwrap();
    let loaded = store
        .load_meta_by_key("report.pdf")
        .unwrap()
        .expect("record saved under this key");
    assert_eq!(loaded.shards().len(), 6);
    assert_eq!(*loaded.shards()[3].checksum(), checksums[3]);
    assert_eq!(loaded, m);
}
