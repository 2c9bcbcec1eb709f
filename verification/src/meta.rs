//! The metadata model: checksums, shard descriptions, the full recovery
//! record for one object, and the record of a failed upload attempt.

use vstd::prelude::*;

verus! {

/// The length of file and shard checksums, in bytes.
pub const CHECKSUM_LENGTH: usize = 16;

/// A checksum of a data object.
pub type Checksum = [u8; CHECKSUM_LENGTH];

/// The length of a symmetric encryption key, in bytes.
pub const KEY_LENGTH: usize = 32;

/// A key for a symmetric encryption algorithm.
#[derive(Clone, Copy, Debug, PartialEq)]
pub struct SymmetricKey(pub [u8; KEY_LENGTH]);

/// Configuration of the encryption stage applied before sharding.
/// Carried opaquely: this crate stores and returns it, nothing more.
#[derive(Clone, Copy, Debug, PartialEq)]
pub enum Encryption {
    Aes(SymmetricKey),
}

/// Configuration of the compression stage applied before sharding.
/// Carried opaquely: this crate stores and returns it, nothing more.
#[derive(Clone, Copy, Debug, PartialEq)]
pub enum Compression {
    Snappy,
}

/// A backend-local storage key identifying one record within a backend
/// namespace.
pub type Key = u64;

/// Mathematical model of an [`Encryption`] configuration.
#[verifier::ext_equal]
pub enum EncryptionView {
    Aes(Seq<u8>),
}

impl View for Encryption {
    type V = EncryptionView;

    open spec fn view(&self) -> EncryptionView {
        match self {
            Encryption::Aes(k) => EncryptionView::Aes(k.0@),
        }
    }
}

impl Encryption {
    /// The length of the key carried by every well-formed configuration.
    pub open spec fn wf_view(v: EncryptionView) -> bool {
        match v {
            EncryptionView::Aes(k) => k.len() == KEY_LENGTH,
        }
    }

    /// Every value of the type is well formed: the key is a fixed-size array.
    pub proof fn lemma_wf(&self)
        ensures
            Encryption::wf_view(self@),
    {
    }
}

/// Descriptor of the backend namespace a shard lives on: address,
/// namespace label and credentials. Opaque to this crate beyond being a
/// stable, comparable key.
#[derive(Debug, PartialEq)]
pub struct ZdbConnectionInfo {
    address: String,
    namespace: Option<String>,
    password: Option<String>,
}

/// Mathematical model of a [`ZdbConnectionInfo`].
#[verifier::ext_equal]
pub struct ZdbConnectionInfoView {
    pub address: Seq<char>,
    pub namespace: Option<Seq<char>>,
    pub password: Option<Seq<char>>,
}

/// The model of an optional string: the character sequence, if present.
pub open spec fn opt_string_view(o: Option<String>) -> Option<Seq<char>> {
    match o {
        Some(s) => Some(s@),
        None => None,
    }
}

impl View for ZdbConnectionInfo {
    type V = ZdbConnectionInfoView;

    closed spec fn view(&self) -> ZdbConnectionInfoView {
        ZdbConnectionInfoView {
            address: self.address@,
            namespace: opt_string_view(self.namespace),
            password: opt_string_view(self.password),
        }
    }
}

/// Equality test on optional strings, by contents.
fn opt_string_eq(a: &Option<String>, b: &Option<String>) -> (r: bool)
    ensures
        r == (opt_string_view(*a) == opt_string_view(*b)),
{
    match (a, b) {
        (Some(x), Some(y)) => *x == *y,
        (None, None) => true,
        _ => false,
    }
}

/// Clone of an optional string, preserving the contents.
fn opt_string_clone(a: &Option<String>) -> (r: Option<String>)
    ensures
        opt_string_view(r) == opt_string_view(*a),
{
    match a {
        Some(x) => Some(x.clone()),
        None => None,
    }
}

impl ZdbConnectionInfo {
    /// Create a new connection descriptor from its parts.
    pub fn new(address: String, namespace: Option<String>, password: Option<String>) -> (res: Self)
        ensures
            res@ == (ZdbConnectionInfoView {
                address: address@,
                namespace: opt_string_view(namespace),
                password: opt_string_view(password),
            }),
    {
        Self { address, namespace, password }
    }

    /// The address of the backend.
    pub fn address(&self) -> (r: &String)
        ensures
            r@ == self@.address,
    {
        &self.address
    }

    /// The namespace label within the backend, if one is set.
    pub fn namespace(&self) -> (r: &Option<String>)
        ensures
            opt_string_view(*r) == self@.namespace,
    {
        &self.namespace
    }

    /// The credentials for the namespace, if any are set.
    pub fn password(&self) -> (r: &Option<String>)
        ensures
            opt_string_view(*r) == self@.password,
    {
        &self.password
    }

    /// Whether two descriptors identify the same backend namespace.
    pub fn same_backend(&self, other: &ZdbConnectionInfo) -> (r: bool)
        ensures
            r == (self@ == other@),
    {
        let r = self.address == other.address && opt_string_eq(&self.namespace, &other.namespace)
            && opt_string_eq(&self.password, &other.password);
        proof {
            if r {
                assert(self@ =~= other@);
            }
        }
        r
    }
}

impl Clone for ZdbConnectionInfo {
    fn clone(&self) -> (res: Self)
        ensures
            res@ == self@,
    {
        Self {
            address: self.address.clone(),
            namespace: opt_string_clone(&self.namespace),
            password: opt_string_clone(&self.password),
        }
    }
}

/// Information needed to retrieve one stored shard: its position in the
/// encoding sequence, its checksum, and where its bytes live.
#[derive(Debug, PartialEq)]
pub struct ShardInfo {
    shard_idx: usize,
    checksum: Checksum,
    keys: Vec<Key>,
    ci: ZdbConnectionInfo,
}

/// Mathematical model of a [`ShardInfo`].
#[verifier::ext_equal]
pub struct ShardInfoView {
    pub shard_idx: usize,
    pub checksum: Seq<u8>,
    pub keys: Seq<Key>,
    pub ci: ZdbConnectionInfoView,
}

impl View for ShardInfo {
    type V = ShardInfoView;

    closed spec fn view(&self) -> ShardInfoView {
        ShardInfoView {
            shard_idx: self.shard_idx,
            checksum: self.checksum@,
            keys: self.keys@,
            ci: self.ci@,
        }
    }
}

impl ShardInfo {
    /// Create a new shard description from the connection info of the backend
    /// namespace and the key(s) under which the shard's bytes are stored.
    pub fn new(shard_idx: usize, checksum: Checksum, keys: Vec<Key>, ci: ZdbConnectionInfo) -> (res:
        Self)
        ensures
            res@ == (ShardInfoView {
                shard_idx,
                checksum: checksum@,
                keys: keys@,
                ci: ci@,
            }),
    {
        Self { shard_idx, checksum, keys, ci }
    }

    /// The index of this shard in the encoding sequence.
    pub fn index(&self) -> (r: usize)
        ensures
            r == self@.shard_idx,
    {
        self.shard_idx
    }

    /// The connection info of the backend namespace where this shard is stored.
    pub fn zdb(&self) -> (r: &ZdbConnectionInfo)
        ensures
            r@ == self@.ci,
    {
        &self.ci
    }

    /// The key(s) under which the shard's bytes are stored, in concatenation
    /// order.
    pub fn key(&self) -> (r: &[Key])
        ensures
            r@ == self@.keys,
    {
        self.keys.as_slice()
    }

    /// The checksum of this shard's encoded bytes.
    pub fn checksum(&self) -> (r: &Checksum)
        ensures
            r@ == self@.checksum,
    {
        &self.checksum
    }
}

impl Clone for ShardInfo {
    fn clone(&self) -> (res: Self)
        ensures
            res@ == self@,
    {
        let res = Self {
            shard_idx: self.shard_idx,
            checksum: self.checksum,
            keys: self.keys.clone(),
            ci: self.ci.clone(),
        };
        proof {
            assert(res.keys@ =~= self.keys@);
            assert(res@ =~= self@);
        }
        res
    }
}

/// The full recovery record for one logical object: the erasure-coding
/// scheme, the whole-object checksum, the transform configuration, and the
/// ordered list of shard descriptions.
#[derive(Debug, PartialEq)]
pub struct MetaData {
    data_shards: usize,
    parity_shards: usize,
    checksum: Checksum,
    encryption: Encryption,
    compression: Compression,
    shards: Vec<ShardInfo>,
}

/// Mathematical model of a [`MetaData`].
#[verifier::ext_equal]
pub struct MetaDataView {
    pub data_shards: usize,
    pub parity_shards: usize,
    pub checksum: Seq<u8>,
    pub encryption: EncryptionView,
    pub compression: Compression,
    pub shards: Seq<ShardInfoView>,
}

impl View for MetaData {
    type V = MetaDataView;

    closed spec fn view(&self) -> MetaDataView {
        MetaDataView {
            data_shards: self.data_shards,
            parity_shards: self.parity_shards,
            checksum: self.checksum@,
            encryption: self.encryption@,
            compression: self.compression,
            shards: self.shards@.map_values(|s: ShardInfo| s@),
        }
    }
}

impl MetaData {
    /// Create a new recovery record, with no shards yet. The expected shard
    /// count only sizes the backing storage; it is not an enforced bound.
    pub fn new(
        data_shards: usize,
        parity_shards: usize,
        checksum: Checksum,
        encryption: Encryption,
        compression: Compression,
    ) -> (res: Self)
        ensures
            res@ == (MetaDataView {
                data_shards,
                parity_shards,
                checksum: checksum@,
                encryption: encryption@,
                compression,
                shards: Seq::<ShardInfoView>::empty(),
            }),
    {
        let shards: Vec<ShardInfo> = match data_shards.checked_add(parity_shards) {
            Some(total) => Vec::with_capacity(total),
            None => Vec::new(),
        };
        let res = Self { data_shards, parity_shards, checksum, encryption, compression, shards };
        proof {
            assert(res@.shards =~= Seq::<ShardInfoView>::empty());
            assert(res@ =~= (MetaDataView {
                data_shards,
                parity_shards,
                checksum: checksum@,
                encryption: encryption@,
                compression,
                shards: Seq::<ShardInfoView>::empty(),
            }));
        }
        res
    }

    /// Append the description of the next shard. Shard order determines the
    /// recovery order, so callers must append in ascending index order; this
    /// is a caller responsibility and is not re-validated here.
    pub fn add_shard(&mut self, si: ShardInfo)
        ensures
            final(self)@ == (MetaDataView { shards: old(self)@.shards.push(si@), ..old(self)@ }),
    {
        let ghost prev = self@;
        self.shards.push(si);
        proof {
            assert(self@.shards =~= prev.shards.push(si@));
            assert(self@ =~= (MetaDataView { shards: prev.shards.push(si@), ..prev }));
        }
    }

    /// The number of data shards used for encoding this object.
    pub fn data_shards(&self) -> (r: usize)
        ensures
            r == self@.data_shards,
    {
        self.data_shards
    }

    /// The number of parity shards used for encoding this object.
    pub fn parity_shards(&self) -> (r: usize)
        ensures
            r == self@.parity_shards,
    {
        self.parity_shards
    }

    /// The encryption configuration used for encoding this object.
    pub fn encryption(&self) -> (r: &Encryption)
        ensures
            r@ == self@.encryption,
    {
        &self.encryption
    }

    /// The compression configuration used for encoding this object.
    pub fn compression(&self) -> (r: &Compression)
        ensures
            *r == self@.compression,
    {
        &self.compression
    }

    /// The descriptions of where the shards of this object are stored, in
    /// encoding order.
    pub fn shards(&self) -> (r: &[ShardInfo])
        ensures
            r@.map_values(|s: ShardInfo| s@) == self@.shards,
    {
        self.shards.as_slice()
    }

    /// The checksum of the whole object.
    pub fn checksum(&self) -> (r: &Checksum)
        ensures
            r@ == self@.checksum,
    {
        &self.checksum
    }
}

impl Clone for MetaData {
    fn clone(&self) -> (res: Self)
        ensures
            res@ == self@,
    {
        let mut shards: Vec<ShardInfo> = Vec::new();
        let mut i: usize = 0;
        while i < self.shards.len()
            invariant
                i <= self.shards.len(),
                shards@.len() == i,
                forall|j: int| 0 <= j < i ==> shards@[j]@ == self.shards@[j]@,
            decreases self.shards.len() - i,
        {
            shards.push(self.shards[i].clone());
            i = i + 1;
        }
        let res = Self {
            data_shards: self.data_shards,
            parity_shards: self.parity_shards,
            checksum: self.checksum,
            encryption: self.encryption,
            compression: self.compression,
            shards,
        };
        proof {
            assert(res@.shards =~= self@.shards);
            assert(res@ =~= self@);
        }
        res
    }
}

/// The durable record of one failed upload attempt: the local source path,
/// the key-material directory if one applies, and whether the source should
/// be removed once a retry succeeds.
#[derive(Debug, PartialEq)]
pub struct FailureMeta {
    data_path: String,
    key_dir_path: Option<String>,
    should_delete: bool,
}

/// Mathematical model of a [`FailureMeta`].
#[verifier::ext_equal]
pub struct FailureMetaView {
    pub data_path: Seq<char>,
    pub key_dir_path: Option<Seq<char>>,
    pub should_delete: bool,
}

impl View for FailureMeta {
    type V = FailureMetaView;

    closed spec fn view(&self) -> FailureMetaView {
        FailureMetaView {
            data_path: self.data_path@,
            key_dir_path: opt_string_view(self.key_dir_path),
            should_delete: self.should_delete,
        }
    }
}

impl FailureMeta {
    /// Create a new failure record.
    pub fn new(data_path: String, key_dir_path: Option<String>, should_delete: bool) -> (res: Self)
        ensures
            res@ == (FailureMetaView {
                data_path: data_path@,
                key_dir_path: opt_string_view(key_dir_path),
                should_delete,
            }),
    {
        Self { data_path, key_dir_path, should_delete }
    }

    /// The path to the data file whose upload failed.
    pub fn data_path(&self) -> (r: &String)
        ensures
            r@ == self@.data_path,
    {
        &self.data_path
    }

    /// The path to the key directory, if one was set.
    pub fn key_dir_path(&self) -> (r: &Option<String>)
        ensures
            opt_string_view(*r) == self@.key_dir_path,
    {
        &self.key_dir_path
    }

    /// Whether the source file should be removed once the retry succeeds.
    pub fn should_delete(&self) -> (r: bool)
        ensures
            r == self@.should_delete,
    {
        self.should_delete
    }

    /// Whether two failure records are equal, by value.
    pub fn same_failure(&self, other: &FailureMeta) -> (r: bool)
        ensures
            r == (self@ == other@),
    {
        let r = self.data_path == other.data_path && opt_string_eq(
            &self.key_dir_path,
            &other.key_dir_path,
        ) && self.should_delete == other.should_delete;
        proof {
            if r {
                assert(self@ =~= other@);
            }
        }
        r
    }
}

/// The record model after appending each of `sis` in turn, as one call of
/// [`MetaData::add_shard`] does per element.
pub open spec fn add_shards(m: MetaDataView, sis: Seq<ShardInfoView>) -> MetaDataView
    decreases sis.len(),
{
    if sis.len() == 0 {
        m
    } else {
        let prev = add_shards(m, sis.drop_last());
        MetaDataView { shards: prev.shards.push(sis.last()), ..prev }
    }
}

/// Appending shard descriptions one by one to a record that started with
/// none puts exactly those descriptions in the record, in order, and leaves
/// the shard counts as they were.
pub proof fn lemma_build_in_order(m: MetaDataView, sis: Seq<ShardInfoView>)
    requires
        m.shards.len() == 0,
    ensures
        add_shards(m, sis).shards == sis,
        add_shards(m, sis).data_shards == m.data_shards,
        add_shards(m, sis).parity_shards == m.parity_shards,
    decreases sis.len(),
{
    if sis.len() == 0 {
        assert(add_shards(m, sis).shards =~= sis);
    } else {
        lemma_build_in_order(m, sis.drop_last());
        assert(add_shards(m, sis).shards =~= sis);
    }
}

/// A complete build: appending `data_shards + parity_shards` descriptions in
/// ascending index order yields a record with exactly that many shards, the
/// shard at each position carrying that position's index.
pub proof fn lemma_complete_build(m: MetaDataView, sis: Seq<ShardInfoView>)
    requires
        m.shards.len() == 0,
        sis.len() == m.data_shards + m.parity_shards,
        forall|i: int| 0 <= i < sis.len() ==> (#[trigger] sis[i]).shard_idx == i,
    ensures
        add_shards(m, sis).shards.len() == m.data_shards + m.parity_shards,
        forall|i: int|
            0 <= i < add_shards(m, sis).shards.len() ==> (#[trigger] add_shards(
                m,
                sis,
            ).shards[i]).shard_idx == i,
{
    lemma_build_in_order(m, sis);
}

impl Clone for FailureMeta {
    fn clone(&self) -> (res: Self)
        ensures
            res@ == self@,
    {
        Self {
            data_path: self.data_path.clone(),
            key_dir_path: opt_string_clone(&self.key_dir_path),
            should_delete: self.should_delete,
        }
    }
}

} // verus!
