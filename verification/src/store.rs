//! The abstract durable-storage contract consumed by the upload and repair
//! pipeline, and a memory-backed store that implements it and can serve as a
//! swap-in double for a durable implementation.

use vstd::prelude::*;

use crate::meta::opt_string_view;
use crate::meta::FailureMeta;
use crate::meta::FailureMetaView;
use crate::meta::MetaData;
use crate::meta::MetaDataView;
use crate::meta::ZdbConnectionInfo;
use crate::meta::ZdbConnectionInfoView;
use vstd::pervasive::VecAdditionalExecFns;

verus! {

/// The abstract state of a metadata store: the records keyed by path, the
/// records keyed by explicit string key, the set of backends marked as
/// replaced, and the failure queue in append order.
#[verifier::ext_equal]
pub struct StoreModel {
    pub path_metas: Map<Seq<char>, MetaDataView>,
    pub key_metas: Map<Seq<char>, MetaDataView>,
    pub replaced: Set<ZdbConnectionInfoView>,
    pub failures: Seq<FailureMetaView>,
}

/// The failure queue after removing the first entry equal to `f`, if the
/// queue holds one; the queue unchanged otherwise.
pub open spec fn remove_first_failure(q: Seq<FailureMetaView>, f: FailureMetaView) -> Seq<
    FailureMetaView,
>
    decreases q.len(),
{
    if q.len() == 0 {
        q
    } else if q.first() == f {
        q.drop_first()
    } else {
        seq![q.first()] + remove_first_failure(q.drop_first(), f)
    }
}

/// Deleting a failure that the queue does not hold leaves the queue
/// unchanged: an idempotent delete.
pub proof fn lemma_delete_absent_failure(q: Seq<FailureMetaView>, f: FailureMetaView)
    requires
        forall|i: int| 0 <= i < q.len() ==> q[i] != f,
    ensures
        remove_first_failure(q, f) == q,
    decreases q.len(),
{
    if q.len() > 0 {
        lemma_delete_absent_failure(q.drop_first(), f);
        assert(seq![q.first()] + q.drop_first() =~= q);
    }
}

/// Removing the first entry equal to `f` removes exactly the entry at the
/// first index holding it.
pub proof fn lemma_remove_first_found(q: Seq<FailureMetaView>, f: FailureMetaView, i: int)
    requires
        0 <= i < q.len(),
        q[i] == f,
        forall|j: int| 0 <= j < i ==> q[j] != f,
    ensures
        remove_first_failure(q, f) == q.remove(i),
    decreases q.len(),
{
    if i == 0 {
        assert(q.drop_first() =~= q.remove(0));
    } else {
        lemma_remove_first_found(q.drop_first(), f, i - 1);
        assert(seq![q.first()] + q.drop_first().remove(i - 1) =~= q.remove(i));
    }
}

/// Appending a failure the queue did not hold and then deleting it restores
/// the queue.
pub proof fn lemma_delete_restores_queue(q: Seq<FailureMetaView>, f: FailureMetaView)
    requires
        forall|i: int| 0 <= i < q.len() ==> q[i] != f,
    ensures
        remove_first_failure(q.push(f), f) == q,
{
    lemma_remove_first_found(q.push(f), f, q.len() as int);
    assert(q.push(f).remove(q.len() as int) =~= q);
}

/// Marking a backend as replaced twice leaves the same store state as
/// marking it once.
pub proof fn lemma_set_replaced_idempotent(m: StoreModel, ci: ZdbConnectionInfoView)
    ensures
        (StoreModel { replaced: m.replaced.insert(ci).insert(ci), ..m }) == (StoreModel {
            replaced: m.replaced.insert(ci),
            ..m
        }),
{
    assert(m.replaced.insert(ci).insert(ci) =~= m.replaced.insert(ci));
}

/// Saving twice under one key keeps only the record saved last: the store
/// model maps the key to the last record saved.
pub proof fn lemma_save_meta_last_write_wins(
    metas: Map<Seq<char>, MetaDataView>,
    k: Seq<char>,
    m1: MetaDataView,
    m2: MetaDataView,
)
    ensures
        metas.insert(k, m1).insert(k, m2) == metas.insert(k, m2),
{
    assert(metas.insert(k, m1).insert(k, m2) =~= metas.insert(k, m2));
}

/// Whether the pair is stored in the model, under either addressing mode.
pub open spec fn entry_stored(e: (String, MetaData), m: StoreModel) -> bool {
    ||| (m.path_metas.contains_key(e.0@) && m.path_metas[e.0@] == e.1@)
    ||| (m.key_metas.contains_key(e.0@) && m.key_metas[e.0@] == e.1@)
}

/// Whether `entries` is a snapshot of every stored (key, record) pair: each
/// listed pair is stored, and each stored pair is listed.
pub open spec fn snapshot_of(entries: Seq<(String, MetaData)>, m: StoreModel) -> bool {
    &&& forall|i: int| 0 <= i < entries.len() ==> entry_stored(#[trigger] entries[i], m)
    &&& forall|k: Seq<char>| #[trigger]
        m.path_metas.contains_key(k) ==> exists|i: int|
            0 <= i < entries.len() && (#[trigger] entries[i]).0@ == k && entries[i].1@
                == m.path_metas[k]
    &&& forall|k: Seq<char>| #[trigger]
        m.key_metas.contains_key(k) ==> exists|i: int|
            0 <= i < entries.len() && (#[trigger] entries[i]).0@ == k && entries[i].1@
                == m.key_metas[k]
}

/// The durable-storage contract: anything that can persist and query
/// recovery records, backend-replacement flags and the failure queue. A
/// backing technology may suspend on I/O inside each call and may fail with
/// its own error type; absence of a record is a normal outcome, returned
/// structurally, never as an error.
pub trait MetaStore: Sized {
    /// The concrete error type surfaced by the backing technology.
    type Error;

    /// The abstract state of this store.
    spec fn store_model(&self) -> StoreModel;

    /// Persist `meta` as the recovery record for the object identified by
    /// `path`, overwriting any prior record for that path.
    fn save_meta(&mut self, path: &str, meta: &MetaData) -> (r: Result<(), Self::Error>)
        ensures
            r is Ok ==> final(self).store_model() == (StoreModel {
                path_metas: old(self).store_model().path_metas.insert(path@, meta@),
                ..old(self).store_model()
            }),
    ;

    /// Persist `meta` under an explicit logical key instead of a path.
    fn save_meta_by_key(&mut self, key: &str, meta: &MetaData) -> (r: Result<(), Self::Error>)
        ensures
            r is Ok ==> final(self).store_model() == (StoreModel {
                key_metas: old(self).store_model().key_metas.insert(key@, meta@),
                ..old(self).store_model()
            }),
    ;

    /// Load the recovery record stored for `path`, or the absent result if
    /// none was ever stored for it.
    fn load_meta(&mut self, path: &str) -> (r: Result<Option<MetaData>, Self::Error>)
        ensures
            final(self).store_model() == old(self).store_model(),
            r matches Ok(Some(m)) ==> old(self).store_model().path_metas.contains_key(path@) && m@
                == old(self).store_model().path_metas[path@],
            r matches Ok(None) ==> !old(self).store_model().path_metas.contains_key(path@),
    ;

    /// Load the recovery record stored for `key`, or the absent result if
    /// none was ever stored for it.
    fn load_meta_by_key(&mut self, key: &str) -> (r: Result<Option<MetaData>, Self::Error>)
        ensures
            final(self).store_model() == old(self).store_model(),
            r matches Ok(Some(m)) ==> old(self).store_model().key_metas.contains_key(key@) && m@
                == old(self).store_model().key_metas[key@],
            r matches Ok(None) ==> !old(self).store_model().key_metas.contains_key(key@),
    ;

    /// Mark the backend identified by `ci` as replaced. Marking an
    /// already-replaced backend again has no further effect.
    fn set_replaced(&mut self, ci: &ZdbConnectionInfo) -> (r: Result<(), Self::Error>)
        ensures
            r is Ok ==> final(self).store_model() == (StoreModel {
                replaced: old(self).store_model().replaced.insert(ci@),
                ..old(self).store_model()
            }),
    ;

    /// Whether the backend identified by `ci` is currently marked replaced.
    fn is_replaced(&mut self, ci: &ZdbConnectionInfo) -> (r: Result<bool, Self::Error>)
        ensures
            final(self).store_model() == old(self).store_model(),
            r matches Ok(b) ==> b == old(self).store_model().replaced.contains(ci@),
    ;

    /// Every stored (key, record) pair currently known, under either
    /// addressing mode: a best-effort snapshot.
    fn object_metas(&mut self) -> (r: Result<Vec<(String, MetaData)>, Self::Error>)
        ensures
            final(self).store_model() == old(self).store_model(),
            r matches Ok(v) ==> snapshot_of(v@, old(self).store_model()),
    ;

    /// Construct a failure record and append it durably to the failure queue.
    fn save_failure(
        &mut self,
        data_path: &str,
        key_dir_path: &Option<String>,
        should_delete: bool,
    ) -> (r: Result<(), Self::Error>)
        ensures
            r is Ok ==> final(self).store_model() == (StoreModel {
                failures: old(self).store_model().failures.push(
                    (FailureMetaView {
                        data_path: data_path@,
                        key_dir_path: opt_string_view(*key_dir_path),
                        should_delete,
                    }),
                ),
                ..old(self).store_model()
            }),
    ;

    /// Remove one failure-queue entry equal to `fm` by value, if the queue
    /// holds one; removing a non-existent entry is a no-op, not an error.
    fn delete_failure(&mut self, fm: &FailureMeta) -> (r: Result<(), Self::Error>)
        ensures
            r is Ok ==> final(self).store_model() == (StoreModel {
                failures: remove_first_failure(old(self).store_model().failures, fm@),
                ..old(self).store_model()
            }),
    ;

    /// All currently queued failure records, in append order.
    fn get_failures(&mut self) -> (r: Result<Vec<FailureMeta>, Self::Error>)
        ensures
            final(self).store_model() == old(self).store_model(),
            r matches Ok(v) ==> v@.map_values(|f: FailureMeta| f@) == old(
                self,
            ).store_model().failures,
    ;
}

/// The error kind a store surfaces: a failure of the backing technology.
#[derive(Clone, Copy, Debug, PartialEq, Eq, Structural)]
pub enum StoreError {
    /// An I/O failure in the backing technology.
    Io,
    /// A record could not be encoded or decoded.
    Serialization,
    /// The backing technology could not be reached.
    Unreachable,
}

/// The map stored by an association list of (key, record) entries: a later
/// entry for a key overrides an earlier one.
pub open spec fn meta_map_of(entries: Seq<(String, MetaData)>) -> Map<Seq<char>, MetaDataView>
    decreases entries.len(),
{
    if entries.len() == 0 {
        Map::empty()
    } else {
        meta_map_of(entries.drop_last()).insert(entries.last().0@, entries.last().1@)
    }
}

/// Whether no two entries of the list carry the same key.
pub open spec fn unique_keys(entries: Seq<(String, MetaData)>) -> bool {
    forall|i: int, j: int|
        0 <= i < j < entries.len() ==> (#[trigger] entries[i].0@) != (#[trigger] entries[j].0@)
}

/// A key is in the stored map exactly when some entry carries it.
proof fn lemma_meta_map_contains(entries: Seq<(String, MetaData)>, k: Seq<char>)
    ensures
        meta_map_of(entries).contains_key(k) <==> exists|i: int|
            0 <= i < entries.len() && (#[trigger] entries[i]).0@ == k,
    decreases entries.len(),
{
    if entries.len() > 0 {
        lemma_meta_map_contains(entries.drop_last(), k);
        let n = entries.len() as int;
        if entries.last().0@ == k {
            assert(entries[n - 1].0@ == k);
        } else {
            if meta_map_of(entries).contains_key(k) {
                let i = choose|i: int|
                    0 <= i < entries.drop_last().len() && (#[trigger] entries.drop_last()[i]).0@
                        == k;
                assert(entries[i].0@ == k);
            }
            if exists|i: int| 0 <= i < entries.len() && (#[trigger] entries[i]).0@ == k {
                let i = choose|i: int| 0 <= i < entries.len() && (#[trigger] entries[i]).0@ == k;
                assert(i < n - 1);
                assert(entries.drop_last()[i].0@ == k);
            }
        }
    }
}

/// Unique keys in a list stay unique after dropping the last entry.
proof fn lemma_unique_drop_last(entries: Seq<(String, MetaData)>)
    requires
        unique_keys(entries),
        entries.len() > 0,
    ensures
        unique_keys(entries.drop_last()),
{
    assert forall|a: int, b: int| 0 <= a < b < entries.drop_last().len() implies (
    #[trigger] entries.drop_last()[a].0@) != (#[trigger] entries.drop_last()[b].0@) by {
        assert(entries[a].0@ != entries[b].0@);
    }
}

/// With unique keys, the stored map sends each entry's key to that entry's
/// record.
proof fn lemma_meta_map_get(entries: Seq<(String, MetaData)>, i: int)
    requires
        unique_keys(entries),
        0 <= i < entries.len(),
    ensures
        meta_map_of(entries).contains_key(entries[i].0@),
        meta_map_of(entries)[entries[i].0@] == entries[i].1@,
    decreases entries.len(),
{
    let n = entries.len() as int;
    if i == n - 1 {
    } else {
        assert(entries[i].0@ != entries[n - 1].0@);
        assert(entries.drop_last()[i] == entries[i]);
        lemma_unique_drop_last(entries);
        lemma_meta_map_get(entries.drop_last(), i);
    }
}

/// Replacing the entry at a key's index with a new record for the same key
/// updates the stored map at that key.
proof fn lemma_meta_map_update(entries: Seq<(String, MetaData)>, i: int, p: (String, MetaData))
    requires
        unique_keys(entries),
        0 <= i < entries.len(),
        p.0@ == entries[i].0@,
    ensures
        meta_map_of(entries.update(i, p)) == meta_map_of(entries).insert(p.0@, p.1@),
    decreases entries.len(),
{
    let n = entries.len() as int;
    let s = entries.update(i, p);
    if i == n - 1 {
        assert(s.drop_last() =~= entries.drop_last());
        assert(s.last() == p);
        assert(meta_map_of(entries.drop_last()).insert(p.0@, p.1@) =~= meta_map_of(
            entries.drop_last(),
        ).insert(entries.last().0@, entries.last().1@).insert(p.0@, p.1@));
    } else {
        assert(s.drop_last() =~= entries.drop_last().update(i, p));
        assert(entries.drop_last()[i] == entries[i]);
        lemma_unique_drop_last(entries);
        lemma_meta_map_update(entries.drop_last(), i, p);
        assert(s.last() == entries.last());
        assert(p.0@ != entries.last().0@);
        assert(meta_map_of(entries.drop_last()).insert(p.0@, p.1@).insert(
            entries.last().0@,
            entries.last().1@,
        ) =~= meta_map_of(entries.drop_last()).insert(entries.last().0@, entries.last().1@).insert(
            p.0@,
            p.1@,
        ));
    }
}

/// With unique keys, the stored map holds exactly one pair per entry.
proof fn lemma_meta_map_card(entries: Seq<(String, MetaData)>)
    requires
        unique_keys(entries),
    ensures
        meta_map_of(entries).dom().finite(),
        meta_map_of(entries).dom().len() == entries.len(),
    decreases entries.len(),
{
    if entries.len() == 0 {
        assert(meta_map_of(entries).dom() =~= Set::<Seq<char>>::empty());
    } else {
        let k = entries.last().0@;
        lemma_unique_drop_last(entries);
        lemma_meta_map_card(entries.drop_last());
        lemma_meta_map_contains(entries.drop_last(), k);
        assert(forall|i: int|
            0 <= i < entries.drop_last().len() ==> (#[trigger] entries.drop_last()[i]).0@
                == entries[i].0@);
        assert(!meta_map_of(entries.drop_last()).contains_key(k));
        assert(meta_map_of(entries).dom() =~= meta_map_of(entries.drop_last()).dom().insert(k));
    }
}

/// Appending an entry updates the stored map at the appended key.
proof fn lemma_meta_map_push(entries: Seq<(String, MetaData)>, p: (String, MetaData))
    ensures
        meta_map_of(entries.push(p)) == meta_map_of(entries).insert(p.0@, p.1@),
{
    assert(entries.push(p).drop_last() =~= entries);
    assert(entries.push(p).last() == p);
}

/// The set of backends an append-only list of descriptors holds.
pub open spec fn ci_set_of(cis: Seq<ZdbConnectionInfo>) -> Set<ZdbConnectionInfoView>
    decreases cis.len(),
{
    if cis.len() == 0 {
        Set::empty()
    } else {
        ci_set_of(cis.drop_last()).insert(cis.last()@)
    }
}

/// A backend is in the stored set exactly when some list element describes it.
proof fn lemma_ci_set_contains(cis: Seq<ZdbConnectionInfo>, c: ZdbConnectionInfoView)
    ensures
        ci_set_of(cis).contains(c) <==> exists|i: int| 0 <= i < cis.len() && (#[trigger] cis[i])@
            == c,
    decreases cis.len(),
{
    if cis.len() > 0 {
        lemma_ci_set_contains(cis.drop_last(), c);
        let n = cis.len() as int;
        if cis.last()@ == c {
            assert(cis[n - 1]@ == c);
        } else {
            if ci_set_of(cis).contains(c) {
                let i = choose|i: int|
                    0 <= i < cis.drop_last().len() && (#[trigger] cis.drop_last()[i])@ == c;
                assert(cis[i]@ == c);
            }
            if exists|i: int| 0 <= i < cis.len() && (#[trigger] cis[i])@ == c {
                let i = choose|i: int| 0 <= i < cis.len() && (#[trigger] cis[i])@ == c;
                assert(i < n - 1);
                assert(cis.drop_last()[i]@ == c);
            }
        }
    }
}

/// The index of the first entry carrying `needle`, if any entry does.
fn find_meta(entries: &Vec<(String, MetaData)>, needle: &String) -> (r: Option<usize>)
    ensures
        match r {
            Some(i) => i < entries@.len() && entries@[i as int].0@ == needle@,
            None => forall|j: int| 0 <= j < entries@.len() ==> (#[trigger] entries@[j]).0@
                != needle@,
        },
{
    let mut i: usize = 0;
    while i < entries.len()
        invariant
            i <= entries@.len(),
            forall|j: int| 0 <= j < i ==> (#[trigger] entries@[j]).0@ != needle@,
        decreases entries@.len() - i,
    {
        if entries[i].0 == *needle {
            return Some(i);
        }
        i = i + 1;
    }
    None
}

/// Insert or overwrite the record stored under `k` in an association list
/// with unique keys.
fn upsert_meta(entries: &mut Vec<(String, MetaData)>, k: &str, meta: &MetaData)
    requires
        unique_keys(old(entries)@),
    ensures
        unique_keys(final(entries)@),
        meta_map_of(final(entries)@) == meta_map_of(old(entries)@).insert(k@, meta@),
{
    let key = k.to_owned();
    let ghost prev = entries@;
    match find_meta(entries, &key) {
        Some(i) => {
            let p = (key, meta.clone());
            entries.set(i, p);
            proof {
                assert(entries@ =~= prev.update(i as int, p));
                lemma_meta_map_update(prev, i as int, p);
                assert forall|a: int, b: int| 0 <= a < b < entries@.len() implies (
                #[trigger] entries@[a].0@) != (#[trigger] entries@[b].0@) by {
                    assert(prev[a].0@ != prev[b].0@);
                }
            }
        },
        None => {
            let p = (key, meta.clone());
            entries.push(p);
            proof {
                lemma_meta_map_push(prev, p);
                assert forall|a: int, b: int| 0 <= a < b < entries@.len() implies (
                #[trigger] entries@[a].0@) != (#[trigger] entries@[b].0@) by {
                    if b < prev.len() {
                        assert(prev[a].0@ != prev[b].0@);
                    } else {
                        assert(prev[a].0@ != p.0@);
                    }
                }
            }
        },
    }
}

/// Look up the record stored under `k` in an association list with unique
/// keys.
fn lookup_meta(entries: &Vec<(String, MetaData)>, k: &str) -> (r: Option<MetaData>)
    requires
        unique_keys(entries@),
    ensures
        match r {
            Some(m) => meta_map_of(entries@).contains_key(k@) && m@ == meta_map_of(entries@)[k@],
            None => !meta_map_of(entries@).contains_key(k@),
        },
{
    let key = k.to_owned();
    match find_meta(entries, &key) {
        Some(i) => {
            proof {
                lemma_meta_map_get(entries@, i as int);
            }
            Some(entries[i].1.clone())
        },
        None => {
            proof {
                lemma_meta_map_contains(entries@, k@);
            }
            None
        },
    }
}

/// Whether some list element describes the backend `ci`.
fn find_ci(cis: &Vec<ZdbConnectionInfo>, ci: &ZdbConnectionInfo) -> (r: bool)
    ensures
        r == ci_set_of(cis@).contains(ci@),
{
    let mut i: usize = 0;
    let mut found = false;
    while i < cis.len() && !found
        invariant
            i <= cis@.len(),
            found ==> exists|j: int| 0 <= j < cis@.len() && (#[trigger] cis@[j])@ == ci@,
            !found ==> forall|j: int| 0 <= j < i ==> (#[trigger] cis@[j])@ != ci@,
        decreases cis@.len() - i + if found {
            0int
        } else {
            1int
        },
    {
        if cis[i].same_backend(ci) {
            found = true;
        }
        i = i + 1;
    }
    proof {
        lemma_ci_set_contains(cis@, ci@);
    }
    found
}

/// A metadata store backed by process memory: the reference implementation
/// of [`MetaStore`], and a swap-in double for a durable one. It never fails:
/// every operation returns the ok result.
pub struct MemoryMetaStore {
    path_metas: Vec<(String, MetaData)>,
    key_metas: Vec<(String, MetaData)>,
    replaced: Vec<ZdbConnectionInfo>,
    failures: Vec<FailureMeta>,
}

impl MemoryMetaStore {
    #[verifier::type_invariant]
    closed spec fn inv(&self) -> bool {
        unique_keys(self.path_metas@) && unique_keys(self.key_metas@)
    }

    /// Create an empty store: no records, no replaced backends, no queued
    /// failures.
    pub fn new() -> (res: Self)
        ensures
            res.store_model() == (StoreModel {
                path_metas: Map::<Seq<char>, MetaDataView>::empty(),
                key_metas: Map::<Seq<char>, MetaDataView>::empty(),
                replaced: Set::<ZdbConnectionInfoView>::empty(),
                failures: Seq::<FailureMetaView>::empty(),
            }),
    {
        let res = MemoryMetaStore {
            path_metas: Vec::new(),
            key_metas: Vec::new(),
            replaced: Vec::new(),
            failures: Vec::new(),
        };
        proof {
            assert(res.failures@.map_values(|f: FailureMeta| f@) =~= Seq::<
                FailureMetaView,
            >::empty());
            assert(res.store_model() =~= (StoreModel {
                path_metas: Map::<Seq<char>, MetaDataView>::empty(),
                key_metas: Map::<Seq<char>, MetaDataView>::empty(),
                replaced: Set::<ZdbConnectionInfoView>::empty(),
                failures: Seq::<FailureMetaView>::empty(),
            }));
        }
        res
    }
}

impl MetaStore for MemoryMetaStore {
    type Error = StoreError;

    closed spec fn store_model(&self) -> StoreModel {
        StoreModel {
            path_metas: meta_map_of(self.path_metas@),
            key_metas: meta_map_of(self.key_metas@),
            replaced: ci_set_of(self.replaced@),
            failures: self.failures@.map_values(|f: FailureMeta| f@),
        }
    }

    fn save_meta(&mut self, path: &str, meta: &MetaData) -> (r: Result<(), StoreError>)
        ensures
            r is Ok,
    {
        proof {
            use_type_invariant(&*self);
        }
        let mut entries: Vec<(String, MetaData)> = Vec::new();
        std::mem::swap(&mut entries, &mut self.path_metas);
        upsert_meta(&mut entries, path, meta);
        self.path_metas = entries;
        Ok(())
    }

    fn save_meta_by_key(&mut self, key: &str, meta: &MetaData) -> (r: Result<(), StoreError>)
        ensures
            r is Ok,
    {
        proof {
            use_type_invariant(&*self);
        }
        let mut entries: Vec<(String, MetaData)> = Vec::new();
        std::mem::swap(&mut entries, &mut self.key_metas);
        upsert_meta(&mut entries, key, meta);
        self.key_metas = entries;
        Ok(())
    }

    fn load_meta(&mut self, path: &str) -> (r: Result<Option<MetaData>, StoreError>)
        ensures
            r is Ok,
    {
        proof {
            use_type_invariant(&*self);
        }
        Ok(lookup_meta(&self.path_metas, path))
    }

    fn load_meta_by_key(&mut self, key: &str) -> (r: Result<Option<MetaData>, StoreError>)
        ensures
            r is Ok,
    {
        proof {
            use_type_invariant(&*self);
        }
        Ok(lookup_meta(&self.key_metas, key))
    }

    fn set_replaced(&mut self, ci: &ZdbConnectionInfo) -> (r: Result<(), StoreError>)
        ensures
            r is Ok,
    {
        proof {
            use_type_invariant(&*self);
        }
        let mut cis: Vec<ZdbConnectionInfo> = Vec::new();
        std::mem::swap(&mut cis, &mut self.replaced);
        let ghost prev = cis@;
        let found = find_ci(&cis, ci);
        if !found {
            cis.push(ci.clone());
        }
        self.replaced = cis;
        proof {
            if found {
                assert(ci_set_of(prev).insert(ci@) =~= ci_set_of(prev));
            } else {
                assert(self.replaced@.drop_last() =~= prev);
            }
        }
        Ok(())
    }

    fn is_replaced(&mut self, ci: &ZdbConnectionInfo) -> (r: Result<bool, StoreError>)
        ensures
            r is Ok,
    {
        proof {
            use_type_invariant(&*self);
        }
        Ok(find_ci(&self.replaced, ci))
    }

    fn object_metas(&mut self) -> (r: Result<Vec<(String, MetaData)>, StoreError>)
        ensures
            r is Ok,
            r matches Ok(v) ==> v@.len() == old(self).store_model().path_metas.dom().len() + old(
                self,
            ).store_model().key_metas.dom().len(),
    {
        proof {
            use_type_invariant(&*self);
            lemma_meta_map_card(self.path_metas@);
            lemma_meta_map_card(self.key_metas@);
        }
        let klen = self.key_metas.len();
        let mut out: Vec<(String, MetaData)> = Vec::new();
        let mut i: usize = 0;
        while i < self.key_metas.len()
            invariant
                i <= self.key_metas@.len(),
                out@.len() == i,
                forall|j: int|
                    0 <= j < i ==> (#[trigger] out@[j]).0@ == self.key_metas@[j].0@ && out@[j].1@
                        == self.key_metas@[j].1@,
            decreases self.key_metas@.len() - i,
        {
            out.push((self.key_metas[i].0.clone(), self.key_metas[i].1.clone()));
            i = i + 1;
        }
        let mut j: usize = 0;
        while j < self.path_metas.len()
            invariant
                j <= self.path_metas@.len(),
                klen == self.key_metas@.len(),
                out@.len() == klen + j,
                forall|x: int|
                    0 <= x < klen ==> (#[trigger] out@[x]).0@ == self.key_metas@[x].0@ && out@[x].1@
                        == self.key_metas@[x].1@,
                forall|x: int|
                    0 <= x < j ==> (#[trigger] out@[klen + x]).0@ == self.path_metas@[x].0@
                        && out@[klen + x].1@ == self.path_metas@[x].1@,
            decreases self.path_metas@.len() - j,
        {
            out.push((self.path_metas[j].0.clone(), self.path_metas[j].1.clone()));
            j = j + 1;
        }
        proof {
            let m = self.store_model();
            assert forall|x: int| 0 <= x < out@.len() implies entry_stored(
                #[trigger] out@[x],
                m,
            ) by {
                if x < klen {
                    lemma_meta_map_get(self.key_metas@, x);
                    assert(out@[x].0@ == self.key_metas@[x].0@);
                    assert(m.key_metas.contains_key(out@[x].0@));
                    assert(m.key_metas[out@[x].0@] == out@[x].1@);
                } else {
                    let y = x - klen;
                    lemma_meta_map_get(self.path_metas@, y);
                    assert(out@[klen + y].0@ == self.path_metas@[y].0@);
                    assert(out@[klen + y].1@ == self.path_metas@[y].1@);
                    assert(m.path_metas.contains_key(out@[x].0@));
                    assert(m.path_metas[out@[x].0@] == out@[x].1@);
                }
            }
            assert forall|k: Seq<char>| #[trigger]
                m.path_metas.contains_key(k) implies exists|i0: int|
                0 <= i0 < out@.len() && (#[trigger] out@[i0]).0@ == k && out@[i0].1@
                    == m.path_metas[k] by {
                lemma_meta_map_contains(self.path_metas@, k);
                let w = choose|w: int|
                    0 <= w < self.path_metas@.len() && (#[trigger] self.path_metas@[w]).0@ == k;
                lemma_meta_map_get(self.path_metas@, w);
                assert(0 <= klen + w < out@.len() && out@[klen + w].0@ == k && out@[klen + w].1@
                    == m.path_metas[k]);
            }
            assert forall|k: Seq<char>| #[trigger]
                m.key_metas.contains_key(k) implies exists|i0: int|
                0 <= i0 < out@.len() && (#[trigger] out@[i0]).0@ == k && out@[i0].1@
                    == m.key_metas[k] by {
                lemma_meta_map_contains(self.key_metas@, k);
                let w = choose|w: int|
                    0 <= w < self.key_metas@.len() && (#[trigger] self.key_metas@[w]).0@ == k;
                lemma_meta_map_get(self.key_metas@, w);
                assert(0 <= w < out@.len() && out@[w].0@ == k && out@[w].1@ == m.key_metas[k]);
            }
        }
        Ok(out)
    }

    fn save_failure(
        &mut self,
        data_path: &str,
        key_dir_path: &Option<String>,
        should_delete: bool,
    ) -> (r: Result<(), StoreError>)
        ensures
            r is Ok,
    {
        proof {
            use_type_invariant(&*self);
        }
        let mut fs: Vec<FailureMeta> = Vec::new();
        std::mem::swap(&mut fs, &mut self.failures);
        let ghost prev = fs@;
        let dp = data_path.to_owned();
        let kd = crate::meta::FailureMeta::new(
            dp,
            match key_dir_path {
                Some(p) => Some(p.clone()),
                None => None,
            },
            should_delete,
        );
        fs.push(kd);
        self.failures = fs;
        proof {
            assert(self.failures@.map_values(|f: FailureMeta| f@) =~= prev.map_values(
                |f: FailureMeta| f@,
            ).push(
                (FailureMetaView {
                    data_path: data_path@,
                    key_dir_path: opt_string_view(*key_dir_path),
                    should_delete,
                }),
            ));
        }
        Ok(())
    }

    fn delete_failure(&mut self, fm: &FailureMeta) -> (r: Result<(), StoreError>)
        ensures
            r is Ok,
    {
        proof {
            use_type_invariant(&*self);
        }
        let mut fs: Vec<FailureMeta> = Vec::new();
        std::mem::swap(&mut fs, &mut self.failures);
        let ghost prev = fs@;
        let mut i: usize = 0;
        let mut found = false;
        while i < fs.len() && !found
            invariant
                i <= fs@.len(),
                fs@ == prev,
                found ==> 0 < i <= fs@.len() && fs@[i - 1]@ == fm@ && forall|j: int|
                    0 <= j < i - 1 ==> (#[trigger] fs@[j])@ != fm@,
                !found ==> forall|j: int| 0 <= j < i ==> (#[trigger] fs@[j])@ != fm@,
            decreases fs@.len() - i + if found {
                0int
            } else {
                1int
            },
        {
            if fs[i].same_failure(fm) {
                found = true;
            }
            i = i + 1;
        }
        if found {
            let idx = i - 1;
            fs.remove(idx);
            proof {
                let vf = |f: FailureMeta| f@;
                assert(prev.remove(idx as int).map_values(vf) =~= prev.map_values(vf).remove(
                    idx as int,
                ));
                lemma_remove_first_found(prev.map_values(vf), fm@, idx as int);
            }
        } else {
            proof {
                let vf = |f: FailureMeta| f@;
                lemma_delete_absent_failure(prev.map_values(vf), fm@);
            }
        }
        self.failures = fs;
        Ok(())
    }

    fn get_failures(&mut self) -> (r: Result<Vec<FailureMeta>, StoreError>)
        ensures
            r is Ok,
    {
        proof {
            use_type_invariant(&*self);
        }
        let mut out: Vec<FailureMeta> = Vec::new();
        let mut i: usize = 0;
        while i < self.failures.len()
            invariant
                i <= self.failures@.len(),
                out@.len() == i,
                forall|j: int| 0 <= j < i ==> (#[trigger] out@[j])@ == self.failures@[j]@,
            decreases self.failures@.len() - i,
        {
            out.push(self.failures[i].clone());
            i = i + 1;
        }
        proof {
            assert(out@.map_values(|f: FailureMeta| f@) =~= self.failures@.map_values(
                |f: FailureMeta| f@,
            ));
        }
        Ok(out)
    }
}

} // verus!
