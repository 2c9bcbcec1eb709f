use zstor_meta::codec::deserialize;
use zstor_meta::codec::deserialize_failure;
use zstor_meta::codec::serialize;
use zstor_meta::codec::serialize_failure;
use zstor_meta::meta::Compression;
use zstor_meta::meta::Encryption;
use zstor_meta::meta::FailureMeta;
use zstor_meta::meta::MetaData;
use zstor_meta::meta::ShardInfo;
use zstor_meta::meta::SymmetricKey;
use zstor_meta::meta::ZdbConnectionInfo;

fn sample_meta() -> MetaData {
    let mut m = MetaData::new(
        2,
        1,
        [0xabu8; 16],
        Encryption::Aes(SymmetricKey([0x11u8; 32])),
        Compression::Snappy,
    );
    m.add_shard(ShardInfo::new(
        0,
        [0u8; 16],
        vec![42],
        ZdbConnectionInfo::new(
            String::from("[::1]:9900"),
            Some(String::from("zstor-ns")),
            Some(String::from("hunter2")),
        ),
    ));
    m.add_shard(ShardInfo::new(
        1,
        [1u8; 16],
        vec![7, 8, 9],
        ZdbConnectionInfo::new(String::from("10.0.0.2:9901"), None, None),
    ));
    m.add_shard(ShardInfo::new(
        2,
        [2u8; 16],
        vec![],
        ZdbConnectionInfo::new(String::from("métadonnées:1"), Some(String::from("ns-é")), None),
    ));
    m
}

#[test]
fn metadata_round_trip() {
    let m = sample_meta();
    let bytes = serialize(&m);
    let back = deserialize(bytes.as_slice()).expect("decoding an encoded record");
    assert_eq!(back, m);
}

#[test]
fn metadata_round_trip_no_shards() {
    let m = MetaData::new(
        4,
        2,
        [5u8; 16],
        Encryption::Aes(SymmetricKey([0u8; 32])),
        Compression::Snappy,
    );
    let bytes = serialize(&m);
    let back = deserialize(bytes.as_slice()).expect("decoding an encoded record");
    assert_eq!(back, m);
}

#[test]
fn deserialize_rejects_truncated_input() {
    let m = sample_meta();
    let bytes = serialize(&m);
    for cut in [0, 1, 8, bytes.len() / 2, bytes.len() - 1] {
        assert_eq!(deserialize(&bytes[..cut]), None);
    }
}

#[test]
fn deserialize_rejects_trailing_bytes() {
    let m = sample_meta();
    let mut bytes = serialize(&m);
    bytes.push(0);
    assert_eq!(deserialize(bytes.as_slice()), None);
}

#[test]
fn deserialize_rejects_bad_tags() {
    let m = MetaData::new(
        1,
        0,
        [5u8; 16],
        Encryption::Aes(SymmetricKey([0u8; 32])),
        Compression::Snappy,
    );
    let mut bytes = serialize(&m);
    // The encryption algorithm tag sits right after the two counts and the
    // checksum.
    bytes[32] = 9;
    assert_eq!(deserialize(bytes.as_slice()), None);
}

#[test]
fn failure_record_round_trip() {
    let fm = FailureMeta::new(
        String::from("/data/archive.tar"),
        Some(String::from("/keys/archive")),
        true,
    );
    let bytes = serialize_failure(&fm);
    let back = deserialize_failure(bytes.as_slice()).expect("decoding an encoded record");
    assert_eq!(back, fm);

    let fm2 = FailureMeta::new(String::from("relative/path"), None, false);
    let bytes2 = serialize_failure(&fm2);
    assert_eq!(deserialize_failure(bytes2.as_slice()), Some(fm2));
}

#[test]
fn failure_record_rejects_bad_flag() {
    let fm = FailureMeta::new(String::from("/data/x"), None, false);
    let mut bytes = serialize_failure(&fm);
    let last = bytes.len() - 1;
    bytes[last] = 2;
    assert_eq!(deserialize_failure(bytes.as_slice()), None);
}

#[test]
fn serialized_integers_are_little_endian() {
    let m = MetaData::new(
        258,
        1,
        [5u8; 16],
        Encryption::Aes(SymmetricKey([0u8; 32])),
        Compression::Snappy,
    );
    let bytes = serialize(&m);
    assert_eq!(&bytes[0..8], &[2, 1, 0, 0, 0, 0, 0, 0]);
    assert_eq!(&bytes[8..16], &[1, 0, 0, 0, 0, 0, 0, 0]);
}
