//! The persisted record schema for recovery records, and its codec.
//!
//! A [`MetaData`] record is encoded as: the shard counts, the whole-object
//! checksum, the encryption and compression configuration, and the ordered
//! shard list. Every integer is eight bytes little endian; a string is its
//! byte length followed by its UTF-8 bytes; an optional value is a presence
//! tag followed by the value. Each shard encodes its own fields and then the
//! fields of its backend connection descriptor merged at the same level, not
//! nested, which existing records require. Decoding rejects malformed input
//! and consumes the whole record.

use vstd::bytes::*;
use vstd::prelude::*;
use vstd::utf8::decode_utf8;
use vstd::utf8::encode_utf8;
use vstd::utf8::encode_utf8_decode_utf8;
use vstd::utf8::encode_utf8_valid_utf8;
use vstd::utf8::valid_utf8;

use crate::meta::Checksum;
use crate::meta::FailureMeta;
use crate::meta::FailureMetaView;
use crate::meta::Compression;
use crate::meta::Encryption;
use crate::meta::EncryptionView;
use crate::meta::MetaData;
use crate::meta::MetaDataView;
use crate::meta::ShardInfo;
use crate::meta::ShardInfoView;
use crate::meta::SymmetricKey;
use crate::meta::ZdbConnectionInfo;
use crate::meta::ZdbConnectionInfoView;
use crate::meta::CHECKSUM_LENGTH;
use crate::meta::KEY_LENGTH;

verus! {

// ---------------------------------------------------------------------------
// The schema, as functions from models to byte sequences.
// ---------------------------------------------------------------------------
/// An integer: eight bytes little endian.
pub open spec fn enc_u64(x: u64) -> Seq<u8> {
    spec_u64_to_le_bytes(x)
}

/// A string: its UTF-8 byte length, then its UTF-8 bytes.
pub open spec fn enc_str(s: Seq<char>) -> Seq<u8> {
    enc_u64(encode_utf8(s).len() as u64) + encode_utf8(s)
}

/// An optional string: a presence tag, then the string if present.
pub open spec fn enc_opt_str(o: Option<Seq<char>>) -> Seq<u8> {
    match o {
        None => seq![0u8],
        Some(s) => seq![1u8] + enc_str(s),
    }
}

/// The connection descriptor's fields, in order, at one level.
pub open spec fn enc_ci(c: ZdbConnectionInfoView) -> Seq<u8> {
    enc_str(c.address) + enc_opt_str(c.namespace) + enc_opt_str(c.password)
}

/// The storage keys of one shard, in order.
pub open spec fn enc_keys(ks: Seq<u64>) -> Seq<u8>
    decreases ks.len(),
{
    if ks.len() == 0 {
        Seq::empty()
    } else {
        enc_u64(ks.first()) + enc_keys(ks.drop_first())
    }
}

/// One shard: index, checksum, keys, then the descriptor's fields flattened
/// at the same level.
pub open spec fn enc_shard(s: ShardInfoView) -> Seq<u8> {
    enc_u64(s.shard_idx as u64) + s.checksum + enc_u64(s.keys.len() as u64) + enc_keys(s.keys)
        + enc_ci(s.ci)
}

/// The shard list, in order.
pub open spec fn enc_shards(ss: Seq<ShardInfoView>) -> Seq<u8>
    decreases ss.len(),
{
    if ss.len() == 0 {
        Seq::empty()
    } else {
        enc_shard(ss.first()) + enc_shards(ss.drop_first())
    }
}

/// The encryption configuration: an algorithm tag, then the key.
pub open spec fn enc_encryption(e: EncryptionView) -> Seq<u8> {
    match e {
        EncryptionView::Aes(k) => seq![0u8] + k,
    }
}

/// The compression configuration: an algorithm tag.
pub open spec fn enc_compression(c: Compression) -> Seq<u8> {
    match c {
        Compression::Snappy => seq![0u8],
    }
}

/// A full recovery record.
pub open spec fn enc_meta(m: MetaDataView) -> Seq<u8> {
    enc_u64(m.data_shards as u64) + enc_u64(m.parity_shards as u64) + m.checksum + enc_encryption(
        m.encryption,
    ) + enc_compression(m.compression) + enc_u64(m.shards.len() as u64) + enc_shards(m.shards)
}

// ---------------------------------------------------------------------------
// Well-formedness: what holds of the model of every value of the exec types.
// ---------------------------------------------------------------------------
/// A string whose UTF-8 encoding fits the length field.
pub open spec fn wf_str(s: Seq<char>) -> bool {
    encode_utf8(s).len() <= u64::MAX
}

/// An optional string whose UTF-8 encoding fits the length field.
pub open spec fn wf_opt_str(o: Option<Seq<char>>) -> bool {
    match o {
        None => true,
        Some(s) => wf_str(s),
    }
}

/// A descriptor whose strings fit their length fields.
pub open spec fn wf_ci(c: ZdbConnectionInfoView) -> bool {
    wf_str(c.address) && wf_opt_str(c.namespace) && wf_opt_str(c.password)
}

/// A shard model with a checksum of the fixed length, a key count that fits
/// its field, and a well-formed descriptor.
pub open spec fn wf_shard(s: ShardInfoView) -> bool {
    s.checksum.len() == CHECKSUM_LENGTH && s.keys.len() <= u64::MAX && wf_ci(s.ci)
}

/// A record model with a checksum of the fixed length, a full-size key, a
/// shard count that fits its field, and well-formed shards.
pub open spec fn wf_meta(m: MetaDataView) -> bool {
    &&& m.checksum.len() == CHECKSUM_LENGTH
    &&& Encryption::wf_view(m.encryption)
    &&& m.shards.len() <= u64::MAX
    &&& forall|i: int| 0 <= i < m.shards.len() ==> wf_shard(#[trigger] m.shards[i])
}

// ---------------------------------------------------------------------------
// Decoding, over byte sequences: each step yields the value and the rest.
// ---------------------------------------------------------------------------
/// Decode one integer.
pub open spec fn dec_u64(b: Seq<u8>) -> Option<(u64, Seq<u8>)> {
    if b.len() >= 8 {
        Some((spec_u64_from_le_bytes(b.take(8)), b.skip(8)))
    } else {
        None
    }
}

/// Decode a fixed number of raw bytes.
pub open spec fn dec_bytes_n(b: Seq<u8>, n: int) -> Option<(Seq<u8>, Seq<u8>)> {
    if b.len() >= n >= 0 {
        Some((b.take(n), b.skip(n)))
    } else {
        None
    }
}

/// Decode one string.
pub open spec fn dec_str(b: Seq<u8>) -> Option<(Seq<char>, Seq<u8>)> {
    match dec_u64(b) {
        Some((n, r)) => {
            if r.len() >= n && valid_utf8(r.take(n as int)) {
                Some((decode_utf8(r.take(n as int)), r.skip(n as int)))
            } else {
                None
            }
        },
        None => None,
    }
}

/// Decode one optional string.
pub open spec fn dec_opt_str(b: Seq<u8>) -> Option<(Option<Seq<char>>, Seq<u8>)> {
    if b.len() >= 1 {
        if b.first() == 0u8 {
            Some((None, b.drop_first()))
        } else if b.first() == 1u8 {
            match dec_str(b.drop_first()) {
                Some((s, r)) => Some((Some(s), r)),
                None => None,
            }
        } else {
            None
        }
    } else {
        None
    }
}

/// Decode the descriptor's flattened fields.
pub open spec fn dec_ci(b: Seq<u8>) -> Option<(ZdbConnectionInfoView, Seq<u8>)> {
    match dec_str(b) {
        Some((address, r1)) => match dec_opt_str(r1) {
            Some((namespace, r2)) => match dec_opt_str(r2) {
                Some((password, r3)) => Some(
                    (ZdbConnectionInfoView { address, namespace, password }, r3),
                ),
                None => None,
            },
            None => None,
        },
        None => None,
    }
}

/// Decode a counted list of storage keys.
pub open spec fn dec_keys(b: Seq<u8>, n: int) -> Option<(Seq<u64>, Seq<u8>)>
    decreases n,
{
    if n <= 0 {
        Some((Seq::empty(), b))
    } else {
        match dec_u64(b) {
            Some((k, r)) => match dec_keys(r, n - 1) {
                Some((ks, r2)) => Some((seq![k] + ks, r2)),
                None => None,
            },
            None => None,
        }
    }
}

/// Decode the encryption configuration.
pub open spec fn dec_encryption(b: Seq<u8>) -> Option<(EncryptionView, Seq<u8>)> {
    if b.len() >= 1 && b.first() == 0u8 {
        match dec_bytes_n(b.drop_first(), KEY_LENGTH as int) {
            Some((k, r)) => Some((EncryptionView::Aes(k), r)),
            None => None,
        }
    } else {
        None
    }
}

/// Decode the compression configuration.
pub open spec fn dec_compression(b: Seq<u8>) -> Option<(Compression, Seq<u8>)> {
    if b.len() >= 1 && b.first() == 0u8 {
        Some((Compression::Snappy, b.drop_first()))
    } else {
        None
    }
}

/// Decode one shard.
pub open spec fn dec_shard(b: Seq<u8>) -> Option<(ShardInfoView, Seq<u8>)> {
    match dec_u64(b) {
        Some((idx, r1)) => {
            if idx <= usize::MAX as u64 {
                match dec_bytes_n(r1, CHECKSUM_LENGTH as int) {
                    Some((checksum, r2)) => match dec_u64(r2) {
                        Some((kn, r3)) => match dec_keys(r3, kn as int) {
                            Some((keys, r4)) => match dec_ci(r4) {
                                Some((ci, r5)) => Some(
                                    (
                                        ShardInfoView {
                                            shard_idx: idx as usize,
                                            checksum,
                                            keys,
                                            ci,
                                        },
                                        r5,
                                    ),
                                ),
                                None => None,
                            },
                            None => None,
                        },
                        None => None,
                    },
                    None => None,
                }
            } else {
                None
            }
        },
        None => None,
    }
}

/// Decode a counted shard list.
pub open spec fn dec_shards(b: Seq<u8>, n: int) -> Option<(Seq<ShardInfoView>, Seq<u8>)>
    decreases n,
{
    if n <= 0 {
        Some((Seq::empty(), b))
    } else {
        match dec_shard(b) {
            Some((s, r)) => match dec_shards(r, n - 1) {
                Some((ss, r2)) => Some((seq![s] + ss, r2)),
                None => None,
            },
            None => None,
        }
    }
}

/// Decode a full recovery record, requiring the whole input consumed.
pub open spec fn dec_meta(b: Seq<u8>) -> Option<MetaDataView> {
    match dec_u64(b) {
        Some((ds, r1)) => {
            if ds <= usize::MAX as u64 {
                match dec_u64(r1) {
                    Some((ps, r2)) => {
                        if ps <= usize::MAX as u64 {
                            match dec_bytes_n(r2, CHECKSUM_LENGTH as int) {
                                Some((checksum, r3)) => match dec_encryption(r3) {
                                    Some((encryption, r4)) => match dec_compression(r4) {
                                        Some((compression, r5)) => match dec_u64(r5) {
                                            Some((sn, r6)) => match dec_shards(r6, sn as int) {
                                                Some((shards, r7)) => {
                                                    if r7.len() == 0 {
                                                        Some(
                                                            (MetaDataView {
                                                                data_shards: ds as usize,
                                                                parity_shards: ps as usize,
                                                                checksum,
                                                                encryption,
                                                                compression,
                                                                shards,
                                                            }),
                                                        )
                                                    } else {
                                                        None
                                                    }
                                                },
                                                None => None,
                                            },
                                            None => None,
                                        },
                                        None => None,
                                    },
                                    None => None,
                                },
                                None => None,
                            }
                        } else {
                            None
                        }
                    },
                    None => None,
                }
            } else {
                None
            }
        },
        None => None,
    }
}

// ---------------------------------------------------------------------------
// The round trip: decoding what was encoded yields the original.
// ---------------------------------------------------------------------------
proof fn lemma_rt_u64(x: u64, rest: Seq<u8>)
    ensures
        dec_u64(enc_u64(x) + rest) == Some((x, rest)),
{
    lemma_auto_spec_u64_to_from_le_bytes();
    assert((enc_u64(x) + rest).take(8) =~= enc_u64(x));
    assert((enc_u64(x) + rest).skip(8) =~= rest);
}

proof fn lemma_rt_bytes_n(bs: Seq<u8>, rest: Seq<u8>)
    ensures
        dec_bytes_n(bs + rest, bs.len() as int) == Some((bs, rest)),
{
    assert((bs + rest).take(bs.len() as int) =~= bs);
    assert((bs + rest).skip(bs.len() as int) =~= rest);
}

proof fn lemma_rt_str(s: Seq<char>, rest: Seq<u8>)
    requires
        wf_str(s),
    ensures
        dec_str(enc_str(s) + rest) == Some((s, rest)),
{
    let bytes = encode_utf8(s);
    let n = bytes.len() as u64;
    assert(enc_str(s) + rest =~= enc_u64(n) + (bytes + rest));
    lemma_rt_u64(n, bytes + rest);
    assert((bytes + rest).take(n as int) =~= bytes);
    assert((bytes + rest).skip(n as int) =~= rest);
    encode_utf8_valid_utf8(s);
    encode_utf8_decode_utf8(s);
}

proof fn lemma_rt_opt_str(o: Option<Seq<char>>, rest: Seq<u8>)
    requires
        wf_opt_str(o),
    ensures
        dec_opt_str(enc_opt_str(o) + rest) == Some((o, rest)),
{
    match o {
        None => {
            assert((enc_opt_str(o) + rest).drop_first() =~= rest);
        },
        Some(s) => {
            assert((enc_opt_str(o) + rest).drop_first() =~= enc_str(s) + rest);
            lemma_rt_str(s, rest);
        },
    }
}

proof fn lemma_rt_ci(c: ZdbConnectionInfoView, rest: Seq<u8>)
    requires
        wf_ci(c),
    ensures
        dec_ci(enc_ci(c) + rest) == Some((c, rest)),
{
    assert(enc_ci(c) + rest =~= enc_str(c.address) + (enc_opt_str(c.namespace) + (enc_opt_str(
        c.password,
    ) + rest)));
    lemma_rt_str(c.address, enc_opt_str(c.namespace) + (enc_opt_str(c.password) + rest));
    lemma_rt_opt_str(c.namespace, enc_opt_str(c.password) + rest);
    lemma_rt_opt_str(c.password, rest);
}

proof fn lemma_rt_keys(ks: Seq<u64>, rest: Seq<u8>)
    ensures
        dec_keys(enc_keys(ks) + rest, ks.len() as int) == Some((ks, rest)),
    decreases ks.len(),
{
    if ks.len() == 0 {
        assert(enc_keys(ks) + rest =~= rest);
        assert(ks =~= Seq::<u64>::empty());
    } else {
        assert(enc_keys(ks) + rest =~= enc_u64(ks.first()) + (enc_keys(ks.drop_first()) + rest));
        lemma_rt_u64(ks.first(), enc_keys(ks.drop_first()) + rest);
        lemma_rt_keys(ks.drop_first(), rest);
        assert(seq![ks.first()] + ks.drop_first() =~= ks);
    }
}

proof fn lemma_rt_encryption(e: EncryptionView, rest: Seq<u8>)
    requires
        Encryption::wf_view(e),
    ensures
        dec_encryption(enc_encryption(e) + rest) == Some((e, rest)),
{
    match e {
        EncryptionView::Aes(k) => {
            assert((enc_encryption(e) + rest).first() == 0u8);
            assert((enc_encryption(e) + rest).drop_first() =~= k + rest);
            lemma_rt_bytes_n(k, rest);
        },
    }
}

proof fn lemma_rt_compression(c: Compression, rest: Seq<u8>)
    ensures
        dec_compression(enc_compression(c) + rest) == Some((c, rest)),
{
    assert((enc_compression(c) + rest).first() == 0u8);
    assert((enc_compression(c) + rest).drop_first() =~= rest);
}

proof fn lemma_rt_shard(s: ShardInfoView, rest: Seq<u8>)
    requires
        wf_shard(s),
    ensures
        dec_shard(enc_shard(s) + rest) == Some((s, rest)),
{
    let r1 = s.checksum + (enc_u64(s.keys.len() as u64) + (enc_keys(s.keys) + (enc_ci(s.ci)
        + rest)));
    assert(enc_shard(s) + rest =~= enc_u64(s.shard_idx as u64) + r1);
    lemma_rt_u64(s.shard_idx as u64, r1);
    lemma_rt_bytes_n(s.checksum, enc_u64(s.keys.len() as u64) + (enc_keys(s.keys) + (enc_ci(s.ci)
        + rest)));
    lemma_rt_u64(s.keys.len() as u64, enc_keys(s.keys) + (enc_ci(s.ci) + rest));
    lemma_rt_keys(s.keys, enc_ci(s.ci) + rest);
    lemma_rt_ci(s.ci, rest);
}

proof fn lemma_rt_shards(ss: Seq<ShardInfoView>, rest: Seq<u8>)
    requires
        forall|i: int| 0 <= i < ss.len() ==> wf_shard(#[trigger] ss[i]),
    ensures
        dec_shards(enc_shards(ss) + rest, ss.len() as int) == Some((ss, rest)),
    decreases ss.len(),
{
    if ss.len() == 0 {
        assert(enc_shards(ss) + rest =~= rest);
        assert(ss =~= Seq::<ShardInfoView>::empty());
    } else {
        assert(enc_shards(ss) + rest =~= enc_shard(ss.first()) + (enc_shards(ss.drop_first())
            + rest));
        lemma_rt_shard(ss.first(), enc_shards(ss.drop_first()) + rest);
        assert(forall|i: int|
            0 <= i < ss.drop_first().len() ==> wf_shard(#[trigger] ss.drop_first()[i]));
        lemma_rt_shards(ss.drop_first(), rest);
        assert(seq![ss.first()] + ss.drop_first() =~= ss);
    }
}

/// The serialization round trip: for any well-formed record model, decoding
/// the encoded record yields the record. Every value of [`MetaData`] has a
/// well-formed model.
pub proof fn lemma_round_trip(m: MetaDataView)
    requires
        wf_meta(m),
    ensures
        dec_meta(enc_meta(m)) == Some(m),
{
    let r1 = enc_u64(m.parity_shards as u64) + (m.checksum + (enc_encryption(m.encryption) + (
    enc_compression(m.compression) + (enc_u64(m.shards.len() as u64) + enc_shards(m.shards)))));
    assert(enc_meta(m) =~= enc_u64(m.data_shards as u64) + r1);
    lemma_rt_u64(m.data_shards as u64, r1);
    lemma_rt_u64(
        m.parity_shards as u64,
        m.checksum + (enc_encryption(m.encryption) + (enc_compression(m.compression) + (enc_u64(
            m.shards.len() as u64,
        ) + enc_shards(m.shards)))),
    );
    lemma_rt_bytes_n(
        m.checksum,
        enc_encryption(m.encryption) + (enc_compression(m.compression) + (enc_u64(
            m.shards.len() as u64,
        ) + enc_shards(m.shards))),
    );
    lemma_rt_encryption(
        m.encryption,
        enc_compression(m.compression) + (enc_u64(m.shards.len() as u64) + enc_shards(m.shards)),
    );
    lemma_rt_compression(
        m.compression,
        enc_u64(m.shards.len() as u64) + enc_shards(m.shards),
    );
    lemma_rt_u64(m.shards.len() as u64, enc_shards(m.shards));
    lemma_rt_shards(m.shards, Seq::empty());
    assert(enc_shards(m.shards) + Seq::<u8>::empty() =~= enc_shards(m.shards));
}

// ---------------------------------------------------------------------------
// The failure record schema: path, optional key directory, delete flag.
// ---------------------------------------------------------------------------
/// A flag: one byte, zero or one.
pub open spec fn enc_bool(b: bool) -> Seq<u8> {
    if b {
        seq![1u8]
    } else {
        seq![0u8]
    }
}

/// A failure record: its fields in order.
pub open spec fn enc_failure(f: FailureMetaView) -> Seq<u8> {
    enc_str(f.data_path) + enc_opt_str(f.key_dir_path) + enc_bool(f.should_delete)
}

/// A failure record model whose strings fit their length fields.
pub open spec fn wf_failure(f: FailureMetaView) -> bool {
    wf_str(f.data_path) && wf_opt_str(f.key_dir_path)
}

/// Decode one flag.
pub open spec fn dec_bool(b: Seq<u8>) -> Option<(bool, Seq<u8>)> {
    if b.len() >= 1 && (b.first() == 0u8 || b.first() == 1u8) {
        Some((b.first() == 1u8, b.drop_first()))
    } else {
        None
    }
}

/// Decode a failure record, requiring the whole input consumed.
pub open spec fn dec_failure(b: Seq<u8>) -> Option<FailureMetaView> {
    match dec_str(b) {
        Some((data_path, r1)) => match dec_opt_str(r1) {
            Some((key_dir_path, r2)) => match dec_bool(r2) {
                Some((should_delete, r3)) => {
                    if r3.len() == 0 {
                        Some((FailureMetaView { data_path, key_dir_path, should_delete }))
                    } else {
                        None
                    }
                },
                None => None,
            },
            None => None,
        },
        None => None,
    }
}

/// The failure-record round trip: decoding an encoded record yields the
/// record.
pub proof fn lemma_failure_round_trip(f: FailureMetaView)
    requires
        wf_failure(f),
    ensures
        dec_failure(enc_failure(f)) == Some(f),
{
    assert(enc_failure(f) =~= enc_str(f.data_path) + (enc_opt_str(f.key_dir_path) + enc_bool(
        f.should_delete,
    )));
    lemma_rt_str(f.data_path, enc_opt_str(f.key_dir_path) + enc_bool(f.should_delete));
    lemma_rt_opt_str(f.key_dir_path, enc_bool(f.should_delete));
    assert(enc_bool(f.should_delete).drop_first() =~= Seq::<u8>::empty());
}

// ---------------------------------------------------------------------------
// Encoding, executably.
// ---------------------------------------------------------------------------
proof fn lemma_enc_keys_push(ks: Seq<u64>, k: u64)
    ensures
        enc_keys(ks.push(k)) == enc_keys(ks) + enc_u64(k),
    decreases ks.len(),
{
    if ks.len() == 0 {
        assert(ks.push(k).drop_first() =~= Seq::<u64>::empty());
        assert(enc_u64(k) + enc_keys(Seq::empty()) =~= enc_keys(ks) + enc_u64(k));
    } else {
        assert(ks.push(k).drop_first() =~= ks.drop_first().push(k));
        lemma_enc_keys_push(ks.drop_first(), k);
        assert(enc_u64(ks.first()) + (enc_keys(ks.drop_first()) + enc_u64(k)) =~= (enc_u64(
            ks.first(),
        ) + enc_keys(ks.drop_first())) + enc_u64(k));
    }
}

proof fn lemma_enc_shards_push(ss: Seq<ShardInfoView>, s: ShardInfoView)
    ensures
        enc_shards(ss.push(s)) == enc_shards(ss) + enc_shard(s),
    decreases ss.len(),
{
    if ss.len() == 0 {
        assert(ss.push(s).drop_first() =~= Seq::<ShardInfoView>::empty());
        assert(enc_shard(s) + enc_shards(Seq::empty()) =~= enc_shards(ss) + enc_shard(s));
    } else {
        assert(ss.push(s).drop_first() =~= ss.drop_first().push(s));
        lemma_enc_shards_push(ss.drop_first(), s);
        assert(enc_shard(ss.first()) + (enc_shards(ss.drop_first()) + enc_shard(s)) =~= (enc_shard(
            ss.first(),
        ) + enc_shards(ss.drop_first())) + enc_shard(s));
    }
}

/// Append the little-endian encoding of `x`.
fn push_u64(out: &mut Vec<u8>, x: u64)
    ensures
        final(out)@ == old(out)@ + enc_u64(x),
{
    let mut b = u64_to_le_bytes(x);
    out.append(&mut b);
}

/// Append the raw bytes of a checksum.
fn push_checksum(out: &mut Vec<u8>, c: &Checksum)
    ensures
        final(out)@ == old(out)@ + c@,
{
    let ghost prev = out@;
    out.extend_from_slice(c.as_slice());
    proof {
        assert forall|i: int| 0 <= i < out@.len() implies out@[i] == (prev + c@)[i] by {}
        assert(out@ =~= prev + c@);
    }
}

/// Append the encoding of a string.
fn push_str(out: &mut Vec<u8>, s: &str)
    ensures
        final(out)@ == old(out)@ + enc_str(s@),
        wf_str(s@),
{
    let ghost prev = out@;
    let bytes = s.as_bytes();
    let n = bytes.len() as u64;
    push_u64(out, n);
    let ghost mid = out@;
    out.extend_from_slice(bytes);
    proof {
        assert forall|i: int| 0 <= i < out@.len() implies out@[i] == (mid + bytes@)[i] by {}
        assert(out@ =~= mid + bytes@);
        assert(out@ =~= prev + enc_str(s@));
    }
}

/// Append the encoding of an optional string.
fn push_opt_str(out: &mut Vec<u8>, o: &Option<String>)
    ensures
        final(out)@ == old(out)@ + enc_opt_str(crate::meta::opt_string_view(*o)),
        wf_opt_str(crate::meta::opt_string_view(*o)),
{
    let ghost prev = out@;
    match o {
        None => {
            out.push(0u8);
            proof {
                assert(out@ =~= prev + seq![0u8]);
            }
        },
        Some(s) => {
            out.push(1u8);
            let ghost mid = out@;
            push_str(out, s.as_str());
            proof {
                assert(mid =~= prev + seq![1u8]);
                assert(out@ =~= prev + (seq![1u8] + enc_str(s@)));
            }
        },
    }
}

/// Append the flattened fields of a connection descriptor.
fn push_ci(out: &mut Vec<u8>, ci: &ZdbConnectionInfo)
    ensures
        final(out)@ == old(out)@ + enc_ci(ci@),
        wf_ci(ci@),
{
    let ghost prev = out@;
    push_str(out, ci.address().as_str());
    push_opt_str(out, ci.namespace());
    push_opt_str(out, ci.password());
    proof {
        assert(out@ =~= prev + enc_ci(ci@));
    }
}

/// Append the encoding of one shard.
fn push_shard(out: &mut Vec<u8>, s: &ShardInfo)
    ensures
        final(out)@ == old(out)@ + enc_shard(s@),
        wf_shard(s@),
{
    let ghost prev = out@;
    push_u64(out, s.index() as u64);
    push_checksum(out, s.checksum());
    let ks = s.key();
    push_u64(out, ks.len() as u64);
    let ghost base = out@;
    let mut i: usize = 0;
    while i < ks.len()
        invariant
            i <= ks@.len(),
            ks@ == s@.keys,
            out@ == base + enc_keys(ks@.take(i as int)),
        decreases ks@.len() - i,
    {
        let k = *vstd::slice::slice_index_get(ks, i);
        push_u64(out, k);
        proof {
            lemma_enc_keys_push(ks@.take(i as int), k);
            assert(ks@.take(i as int).push(k) =~= ks@.take(i as int + 1));
            assert(out@ =~= base + enc_keys(ks@.take(i as int + 1)));
        }
        i = i + 1;
    }
    proof {
        assert(ks@.take(ks@.len() as int) =~= ks@);
    }
    push_ci(out, s.zdb());
    proof {
        assert(out@ =~= prev + enc_shard(s@));
    }
}

/// Encode a recovery record as bytes, following the persisted record
/// schema. Every record's model is well formed, so by [`lemma_round_trip`]
/// decoding the result yields the record back.
pub fn serialize(meta: &MetaData) -> (out: Vec<u8>)
    ensures
        out@ == enc_meta(meta@),
        wf_meta(meta@),
{
    let mut out: Vec<u8> = Vec::new();
    push_u64(&mut out, meta.data_shards() as u64);
    push_u64(&mut out, meta.parity_shards() as u64);
    push_checksum(&mut out, meta.checksum());
    let e = meta.encryption();
    proof {
        e.lemma_wf();
    }
    match meta.encryption() {
        Encryption::Aes(k) => {
            out.push(0u8);
            let ghost mid = out@;
            let ghost prev = mid.drop_last();
            out.extend_from_slice(k.0.as_slice());
            proof {
                assert forall|i: int| 0 <= i < out@.len() implies out@[i] == (mid + k.0@)[i] by {}
                assert(out@ =~= mid + k.0@);
                assert(mid =~= prev + seq![0u8]);
                assert(out@ =~= prev + enc_encryption(meta@.encryption));
            }
        },
    }
    match meta.compression() {
        Compression::Snappy => {
            out.push(0u8);
            proof {
                assert(out@ =~= out@.drop_last() + enc_compression(meta@.compression));
            }
        },
    }
    let shards = meta.shards();
    push_u64(&mut out, shards.len() as u64);
    let ghost base = out@;
    let mut i: usize = 0;
    while i < shards.len()
        invariant
            i <= shards@.len(),
            shards@.map_values(|s: ShardInfo| s@) == meta@.shards,
            meta@.shards.len() <= u64::MAX,
            out@ == base + enc_shards(meta@.shards.take(i as int)),
            forall|j: int| 0 <= j < i ==> wf_shard(#[trigger] meta@.shards[j]),
        decreases shards@.len() - i,
    {
        let s = vstd::slice::slice_index_get(shards, i);
        push_shard(&mut out, s);
        proof {
            assert(s@ == meta@.shards[i as int]);
            lemma_enc_shards_push(meta@.shards.take(i as int), s@);
            assert(meta@.shards.take(i as int).push(s@) =~= meta@.shards.take(i as int + 1));
            assert(out@ =~= base + enc_shards(meta@.shards.take(i as int + 1)));
        }
        i = i + 1;
    }
    proof {
        assert(meta@.shards.take(meta@.shards.len() as int) =~= meta@.shards);
        assert(out@ =~= enc_meta(meta@));
    }
    out
}

// ---------------------------------------------------------------------------
// Decoding, executably.
// ---------------------------------------------------------------------------
/// Relies on str::from_utf8: the ok result is the string slice viewing the
/// input bytes, and comes exactly when the input is valid UTF-8.
#[verifier::external_body]
fn str_from_utf8(v: &[u8]) -> (r: Option<&str>)
    ensures
        r matches Some(s) ==> encode_utf8(s@) == v@,
        valid_utf8(v@) ==> r is Some,
{
    core::str::from_utf8(v).ok()
}

/// Read one integer at `pos`.
fn read_u64(d: &[u8], pos: usize) -> (r: Option<(u64, usize)>)
    requires
        pos <= d@.len(),
    ensures
        match r {
            Some(v) => pos <= v.1 <= d@.len() && dec_u64(d@.skip(pos as int)) == Some(
                (v.0, d@.skip(v.1 as int)),
            ),
            None => dec_u64(d@.skip(pos as int)) is None,
        },
{
    if d.len() - pos >= 8 {
        let s = vstd::slice::slice_subrange(d, pos, pos + 8);
        let x = u64_from_le_bytes(s);
        proof {
            assert(d@.skip(pos as int).take(8) =~= d@.subrange(pos as int, pos as int + 8));
            assert(d@.skip(pos as int).skip(8) =~= d@.skip(pos as int + 8));
        }
        Some((x, pos + 8))
    } else {
        None
    }
}

/// Read a fixed number of raw bytes at `pos`.
fn read_bytes<const N: usize>(d: &[u8], pos: usize) -> (r: Option<([u8; N], usize)>)
    requires
        pos <= d@.len(),
    ensures
        match r {
            Some(v) => pos <= v.1 <= d@.len() && dec_bytes_n(d@.skip(pos as int), N as int)
                == Some((v.0@, d@.skip(v.1 as int))),
            None => dec_bytes_n(d@.skip(pos as int), N as int) is None,
        },
{
    if d.len() - pos >= N {
        let mut a: [u8; N] = [0u8; N];
        let mut i: usize = 0;
        while i < N
            invariant
                i <= N,
                pos + N <= d@.len(),
                d@.len() <= usize::MAX,
                forall|j: int| 0 <= j < i ==> a@[j] == d@[pos + j],
            decreases N - i,
        {
            a[i] = *vstd::slice::slice_index_get(d, pos + i);
            i = i + 1;
        }
        proof {
            assert(a@ =~= d@.skip(pos as int).take(N as int));
            assert(d@.skip(pos as int).skip(N as int) =~= d@.skip(pos as int + N as int));
        }
        Some((a, pos + N))
    } else {
        None
    }
}

/// Read one string at `pos`.
fn read_string(d: &[u8], pos: usize) -> (r: Option<(String, usize)>)
    requires
        pos <= d@.len(),
    ensures
        match r {
            Some(v) => pos <= v.1 <= d@.len() && dec_str(d@.skip(pos as int)) == Some(
                (v.0@, d@.skip(v.1 as int)),
            ),
            None => dec_str(d@.skip(pos as int)) is None,
        },
{
    match read_u64(d, pos) {
        Some((n, p1)) => {
            if n <= (d.len() - p1) as u64 {
                let nn = n as usize;
                let bytes = vstd::slice::slice_subrange(d, p1, p1 + nn);
                proof {
                    assert(bytes@ =~= d@.skip(p1 as int).take(n as int));
                }
                match str_from_utf8(bytes) {
                    Some(s) => {
                        proof {
                            encode_utf8_valid_utf8(s@);
                            encode_utf8_decode_utf8(s@);
                            assert(d@.skip(p1 as int).skip(n as int) =~= d@.skip(
                                p1 as int + n as int,
                            ));
                        }
                        Some((s.to_owned(), p1 + nn))
                    },
                    None => None,
                }
            } else {
                None
            }
        },
        None => None,
    }
}

/// Read one optional string at `pos`.
fn read_opt_string(d: &[u8], pos: usize) -> (r: Option<(Option<String>, usize)>)
    requires
        pos <= d@.len(),
    ensures
        match r {
            Some(v) => pos <= v.1 <= d@.len() && dec_opt_str(d@.skip(pos as int)) == Some(
                (crate::meta::opt_string_view(v.0), d@.skip(v.1 as int)),
            ),
            None => dec_opt_str(d@.skip(pos as int)) is None,
        },
{
    if pos < d.len() {
        let tag = *vstd::slice::slice_index_get(d, pos);
        proof {
            assert(d@.skip(pos as int).first() == d@[pos as int]);
            assert(d@.skip(pos as int).drop_first() =~= d@.skip(pos as int + 1));
        }
        if tag == 0 {
            Some((None, pos + 1))
        } else if tag == 1 {
            match read_string(d, pos + 1) {
                Some((s, p2)) => Some((Some(s), p2)),
                None => None,
            }
        } else {
            None
        }
    } else {
        None
    }
}

/// Read the flattened fields of a connection descriptor at `pos`.
fn read_ci(d: &[u8], pos: usize) -> (r: Option<(ZdbConnectionInfo, usize)>)
    requires
        pos <= d@.len(),
    ensures
        match r {
            Some(v) => pos <= v.1 <= d@.len() && dec_ci(d@.skip(pos as int)) == Some(
                (v.0@, d@.skip(v.1 as int)),
            ),
            None => dec_ci(d@.skip(pos as int)) is None,
        },
{
    match read_string(d, pos) {
        Some((address, p1)) => match read_opt_string(d, p1) {
            Some((namespace, p2)) => match read_opt_string(d, p2) {
                Some((password, p3)) => {
                    let ci = ZdbConnectionInfo::new(address, namespace, password);
                    proof {
                        assert(dec_ci(d@.skip(pos as int)) == Some((ci@, d@.skip(p3 as int))));
                    }
                    Some((ci, p3))
                },
                None => None,
            },
            None => None,
        },
        None => None,
    }
}

/// Read a counted list of storage keys at `pos`.
fn read_keys(d: &[u8], pos: usize, n: u64) -> (r: Option<(Vec<u64>, usize)>)
    requires
        pos <= d@.len(),
    ensures
        match r {
            Some(v) => pos <= v.1 <= d@.len() && dec_keys(d@.skip(pos as int), n as int) == Some(
                (v.0@, d@.skip(v.1 as int)),
            ),
            None => dec_keys(d@.skip(pos as int), n as int) is None,
        },
{
    let mut acc: Vec<u64> = Vec::new();
    let mut i: u64 = 0;
    let mut p: usize = pos;
    while i < n
        invariant
            i <= n,
            pos <= p <= d@.len(),
            dec_keys(d@.skip(pos as int), n as int) == (match dec_keys(
                d@.skip(p as int),
                n - i,
            ) {
                Some(w) => Some((acc@ + w.0, w.1)),
                None => None::<(Seq<u64>, Seq<u8>)>,
            }),
        decreases n - i,
    {
        match read_u64(d, p) {
            Some((k, p2)) => {
                acc.push(k);
                proof {
                    assert(forall|ks: Seq<u64>|
                        acc@.drop_last() + (seq![k] + ks) =~= acc@ + ks);
                }
                p = p2;
            },
            None => {
                return None;
            },
        }
        i = i + 1;
    }
    proof {
        assert(acc@ + Seq::<u64>::empty() =~= acc@);
    }
    Some((acc, p))
}

/// Read one shard at `pos`.
fn read_shard(d: &[u8], pos: usize) -> (r: Option<(ShardInfo, usize)>)
    requires
        pos <= d@.len(),
    ensures
        match r {
            Some(v) => pos <= v.1 <= d@.len() && dec_shard(d@.skip(pos as int)) == Some(
                (v.0@, d@.skip(v.1 as int)),
            ),
            None => dec_shard(d@.skip(pos as int)) is None,
        },
{
    match read_u64(d, pos) {
        Some((idx, p1)) => {
            if idx <= usize::MAX as u64 {
                match read_bytes::<CHECKSUM_LENGTH>(d, p1) {
                    Some((checksum, p2)) => match read_u64(d, p2) {
                        Some((kn, p3)) => match read_keys(d, p3, kn) {
                            Some((keys, p4)) => match read_ci(d, p4) {
                                Some((ci, p5)) => {
                                    let si = ShardInfo::new(idx as usize, checksum, keys, ci);
                                    Some((si, p5))
                                },
                                None => None,
                            },
                            None => None,
                        },
                        None => None,
                    },
                    None => None,
                }
            } else {
                None
            }
        },
        None => None,
    }
}

/// Read a counted shard list at `pos`.
fn read_shards(d: &[u8], pos: usize, n: u64) -> (r: Option<(Vec<ShardInfo>, usize)>)
    requires
        pos <= d@.len(),
    ensures
        match r {
            Some(v) => pos <= v.1 <= d@.len() && dec_shards(d@.skip(pos as int), n as int) == Some(
                (v.0@.map_values(|s: ShardInfo| s@), d@.skip(v.1 as int)),
            ),
            None => dec_shards(d@.skip(pos as int), n as int) is None,
        },
{
    let mut acc: Vec<ShardInfo> = Vec::new();
    let mut i: u64 = 0;
    let mut p: usize = pos;
    while i < n
        invariant
            i <= n,
            pos <= p <= d@.len(),
            dec_shards(d@.skip(pos as int), n as int) == (match dec_shards(
                d@.skip(p as int),
                n - i,
            ) {
                Some(w) => Some((acc@.map_values(|s: ShardInfo| s@) + w.0, w.1)),
                None => None::<(Seq<ShardInfoView>, Seq<u8>)>,
            }),
        decreases n - i,
    {
        match read_shard(d, p) {
            Some((s, p2)) => {
                acc.push(s);
                proof {
                    let vs = |s: ShardInfo| s@;
                    assert(acc@.map_values(vs) =~= acc@.drop_last().map_values(vs).push(
                        acc@.last()@,
                    ));
                    assert(forall|ss: Seq<ShardInfoView>|
                        acc@.drop_last().map_values(vs) + (seq![acc@.last()@] + ss)
                            =~= acc@.map_values(vs) + ss);
                }
                p = p2;
            },
            None => {
                return None;
            },
        }
        i = i + 1;
    }
    proof {
        assert(acc@.map_values(|s: ShardInfo| s@) + Seq::<ShardInfoView>::empty()
            =~= acc@.map_values(|s: ShardInfo| s@));
    }
    Some((acc, p))
}

/// Decode a recovery record from bytes, rejecting malformed input and input
/// with trailing bytes.
pub fn deserialize(data: &[u8]) -> (r: Option<MetaData>)
    ensures
        match r {
            Some(m) => dec_meta(data@) == Some(m@),
            None => dec_meta(data@) is None,
        },
{
    proof {
        assert(data@.skip(0) =~= data@);
    }
    let ds_r = read_u64(data, 0);
    match ds_r {
        Some((ds, p1)) => {
            if ds > usize::MAX as u64 {
                return None;
            }
            match read_u64(data, p1) {
                Some((ps, p2)) => {
                    if ps > usize::MAX as u64 {
                        return None;
                    }
                    match read_bytes::<CHECKSUM_LENGTH>(data, p2) {
                        Some((checksum, p3)) => {
                            if p3 >= data.len() {
                                return None;
                            }
                            let etag = *vstd::slice::slice_index_get(data, p3);
                            proof {
                                assert(data@.skip(p3 as int).first() == data@[p3 as int]);
                                assert(data@.skip(p3 as int).drop_first() =~= data@.skip(
                                    p3 as int + 1,
                                ));
                            }
                            if etag != 0 {
                                return None;
                            }
                            match read_bytes::<KEY_LENGTH>(data, p3 + 1) {
                                Some((keybytes, p4)) => {
                                    let encryption = Encryption::Aes(SymmetricKey(keybytes));
                                    if p4 >= data.len() {
                                        return None;
                                    }
                                    let ctag = *vstd::slice::slice_index_get(data, p4);
                                    proof {
                                        assert(data@.skip(p4 as int).first() == data@[p4 as int]);
                                        assert(data@.skip(p4 as int).drop_first() =~= data@.skip(
                                            p4 as int + 1,
                                        ));
                                    }
                                    if ctag != 0 {
                                        return None;
                                    }
                                    let compression = Compression::Snappy;
                                    match read_u64(data, p4 + 1) {
                                        Some((sn, p5)) => {
                                            match read_shards(data, p5, sn) {
                                                Some((mut shards, p6)) => {
                                                    if p6 != data.len() {
                                                        return None;
                                                    }
                                                    proof {
                                                        assert(data@.skip(p6 as int).len() == 0);
                                                    }
                                                    let ghost target =
                                                        shards@.map_values(|s: ShardInfo| s@);
                                                    let mut m = MetaData::new(
                                                        ds as usize,
                                                        ps as usize,
                                                        checksum,
                                                        encryption,
                                                        compression,
                                                    );
                                                    proof {
                                                        assert(m@.shards + target =~= target);
                                                    }
                                                    while shards.len() > 0
                                                        invariant
                                                            m@.shards + shards@.map_values(
                                                                |s: ShardInfo| s@,
                                                            ) == target,
                                                            m@.data_shards == ds as usize,
                                                            m@.parity_shards == ps as usize,
                                                            m@.checksum == checksum@,
                                                            m@.encryption == encryption@,
                                                            m@.compression == compression,
                                                        decreases shards@.len(),
                                                    {
                                                        let ghost prev_shards = shards@;
                                                        let ghost prev_m = m@;
                                                        let s = shards.remove(0);
                                                        m.add_shard(s);
                                                        proof {
                                                            let vs = |s: ShardInfo| s@;
                                                            assert(prev_shards.map_values(vs)
                                                                =~= seq![s@] + shards@.map_values(
                                                                vs,
                                                            ));
                                                            assert(m@.shards + shards@.map_values(
                                                                vs,
                                                            ) =~= prev_m.shards
                                                                + prev_shards.map_values(vs));
                                                        }
                                                    }
                                                    proof {
                                                        assert(shards@.map_values(
                                                            |s: ShardInfo| s@,
                                                        ) =~= Seq::<ShardInfoView>::empty());
                                                        assert(m@.shards =~= target);
                                                        assert(dec_meta(data@) == Some(m@));
                                                    }
                                                    Some(m)
                                                },
                                                None => None,
                                            }
                                        },
                                        None => None,
                                    }
                                },
                                None => None,
                            }
                        },
                        None => None,
                    }
                },
                None => None,
            }
        },
        None => None,
    }
}

/// Encode a failure record as bytes, following the failure record schema.
/// Every record's model is well formed, so by [`lemma_failure_round_trip`]
/// decoding the result yields the record back.
pub fn serialize_failure(fm: &FailureMeta) -> (out: Vec<u8>)
    ensures
        out@ == enc_failure(fm@),
        wf_failure(fm@),
{
    let mut out: Vec<u8> = Vec::new();
    push_str(&mut out, fm.data_path().as_str());
    push_opt_str(&mut out, fm.key_dir_path());
    if fm.should_delete() {
        out.push(1u8);
    } else {
        out.push(0u8);
    }
    proof {
        assert(out@ =~= enc_failure(fm@));
    }
    out
}

/// Decode a failure record from bytes, rejecting malformed input and input
/// with trailing bytes.
pub fn deserialize_failure(data: &[u8]) -> (r: Option<FailureMeta>)
    ensures
        match r {
            Some(fm) => dec_failure(data@) == Some(fm@),
            None => dec_failure(data@) is None,
        },
{
    proof {
        assert(data@.skip(0) =~= data@);
    }
    match read_string(data, 0) {
        Some((data_path, p1)) => match read_opt_string(data, p1) {
            Some((key_dir_path, p2)) => {
                if p2 >= data.len() {
                    return None;
                }
                let tag = *vstd::slice::slice_index_get(data, p2);
                proof {
                    assert(data@.skip(p2 as int).first() == data@[p2 as int]);
                    assert(data@.skip(p2 as int).drop_first() =~= data@.skip(p2 as int + 1));
                }
                if tag > 1 {
                    return None;
                }
                if p2 + 1 != data.len() {
                    return None;
                }
                proof {
                    assert(data@.skip(p2 as int + 1).len() == 0);
                }
                Some(FailureMeta::new(data_path, key_dir_path, tag == 1))
            },
            None => None,
        },
        None => None,
    }
}

} // verus!
