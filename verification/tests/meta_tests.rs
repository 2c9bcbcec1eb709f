use zstor_meta::meta::Checksum;
use zstor_meta::meta::Compression;
use zstor_meta::meta::Encryption;
use zstor_meta::meta::FailureMeta;
use zstor_meta::meta::MetaData;
use zstor_meta::meta::ShardInfo;
use zstor_meta::meta::SymmetricKey;
use zstor_meta::meta::ZdbConnectionInfo;

fn sample_ci(n: u8) -> ZdbConnectionInfo {
    ZdbConnectionInfo::new(
        format!("[2a02:1802:5e::{}]:9900", n),
        Some(format!("ns-{}", n)),
        if n % 2 == 0 { Some(String::from("sup3rs3cr3t")) } else { None },
    )
}

fn sample_key() -> SymmetricKey {
    SymmetricKey([7u8; 32])
}

#[test]
fn metadata_new_and_getters() {
    let checksum: Checksum = [3u8; 16];
    let m = MetaData::new(4, 2, checksum, Encryption::Aes(sample_key()), Compression::Snappy);
    assert_eq!(m.data_shards(), 4);
    assert_eq!(m.parity_shards(), 2);
    assert_eq!(*m.checksum(), checksum);
    assert_eq!(*m.encryption(), Encryption::Aes(sample_key()));
    assert_eq!(*m.compression(), Compression::Snappy);
    assert!(m.shards().is_empty());
}

#[test]
fn add_shard_appends_in_ascending_order() {
    let mut m = MetaData::new(4, 2, [0u8; 16], Encryption::Aes(sample_key()), Compression::Snappy);
    for i in 0..6usize {
        let cs: Checksum = [i as u8; 16];
        m.add_shard(ShardInfo::new(i, cs, vec![i as u64], sample_ci(i as u8)));
    }
    assert_eq!(m.shards().len(), 6);
    for i in 0..6usize {
        assert_eq!(m.shards()[i].index(), i);
        assert_eq!(*m.shards()[i].checksum(), [i as u8; 16]);
    }
}

#[test]
fn shard_info_getters() {
    let ci = sample_ci(2);
    let cs: Checksum = [9u8; 16];
    let s = ShardInfo::new(3, cs, vec![10, 11], ci.clone());
    assert_eq!(s.index(), 3);
    assert_eq!(*s.zdb(), ci);
    assert_eq!(s.key(), &[10, 11]);
    assert_eq!(*s.checksum(), cs);
}

#[test]
fn connection_info_getters() {
    let ci = ZdbConnectionInfo::new(
        String::from("127.0.0.1:9900"),
        Some(String::from("backup")),
        None,
    );
    assert_eq!(ci.address(), "127.0.0.1:9900");
    assert_eq!(*ci.namespace(), Some(String::from("backup")));
    assert_eq!(*ci.password(), None);
}

#[test]
fn failure_meta_getters() {
    let fm = FailureMeta::new(
        String::from("/data/report.pdf"),
        Some(String::from("/keys")),
        true,
    );
    assert_eq!(fm.data_path(), "/data/report.pdf");
    assert_eq!(*fm.key_dir_path(), Some(String::from("/keys")));
    assert!(fm.should_delete());

    let fm2 = FailureMeta::new(String::from("/data/other"), None, false);
    assert_eq!(*fm2.key_dir_path(), None);
    assert!(!fm2.should_delete());
}
