//! Version identifiers and the log of snapshots taken under them.
use vstd::prelude::*;
use crate::pairs::{find, find_from, lemma_find, pairs_of, unique_keys};
use crate::snapshot::{decode, encode, lemma_decode_encode, ParseError};
use crate::store::KeyValueStore;
use crate::text::{Key, Text};

verus! {

/// What a version identifier stands for: its three components, as texts.
pub type VersionId = (Seq<char>, Seq<char>, Seq<char>);

/// What a log stands for: its entries from the oldest to the newest, each an
/// identifier and the snapshot taken under it.
pub type Log = Seq<(VersionId, Seq<char>)>;

/// A version identifier of three components. Two identifiers are the same
/// where each component of one is, character for character, that of the
/// other; no order is defined on them.
#[derive(Debug, PartialEq, Eq)]
pub struct Version {
    major: String,
    minor: String,
    patch: String,
}

impl View for Version {
    type V = VersionId;

    closed spec fn view(&self) -> VersionId {
        (self.major@, self.minor@, self.patch@)
    }
}

impl Version {
    /// The identifier with the given components.
    pub fn new(major: String, minor: String, patch: String) -> (v: Self)
        ensures
            v@ == (major@, minor@, patch@),
    {
        Self { major, minor, patch }
    }
}

impl Clone for Version {
    fn clone(&self) -> (v: Self)
        ensures
            v@ == self@,
    {
        Self { major: self.major.clone(), minor: self.minor.clone(), patch: self.patch.clone() }
    }
}

impl Key for Version {
    fn same(&self, other: &Self) -> (b: bool) {
        self.major == other.major && self.minor == other.minor && self.patch == other.patch
    }
}

/// Why a rollback did not happen.
#[derive(Debug, Clone, Copy, PartialEq, Eq, Structural)]
pub enum RollbackError {
    /// The log holds no entry under the identifier.
    VersionNotFound,
    /// The oldest snapshot under the identifier cannot be read.
    Snapshot(ParseError),
}

/// What a rollback to `id` comes to: the pairs of the oldest snapshot taken
/// under `id`, or the reason why there are none to restore.
pub open spec fn outcome<K: Text, V: Text>(log: Log, id: VersionId) -> Result<
    Seq<(K::V, V::V)>,
    RollbackError,
> {
    match find(log, id) {
        Some(i) => match decode::<K, V>(log[i].1) {
            Ok(pairs) => Ok(pairs),
            Err(e) => Err(RollbackError::Snapshot(e)),
        },
        None => Err(RollbackError::VersionNotFound),
    }
}

/// The pairs that a rollback to `id` puts into the live store, where it
/// happens.
pub open spec fn restored<K: Text, V: Text>(log: Log, id: VersionId) -> Option<Seq<(K::V, V::V)>> {
    match outcome::<K, V>(log, id) {
        Ok(pairs) => Some(pairs),
        Err(_) => None,
    }
}

/// The log after a prune: its newest entry alone, where it has one.
pub open spec fn pruned(log: Log) -> Log {
    if log.len() == 0 {
        log
    } else {
        seq![log.last()]
    }
}

/// A snapshot taken under an identifier that the log did not hold before is
/// what a rollback to that identifier restores, whatever was appended to the
/// log since: the pairs come back exactly as they were, and the rollback
/// succeeds.
pub proof fn lemma_rollback_restores_checkpoint<K: Text, V: Text>(
    log: Log,
    id: VersionId,
    pairs: Seq<(K::V, V::V)>,
    later: Log,
)
    requires
        unique_keys(pairs),
        find(log, id) is None,
    ensures
        outcome::<K, V>(log.push((id, encode::<K, V>(pairs))) + later, id) == Ok::<
            Seq<(K::V, V::V)>,
            RollbackError,
        >(pairs),
        restored::<K, V>(log.push((id, encode::<K, V>(pairs))) + later, id) == Some(pairs),
{
    let entry = (id, encode::<K, V>(pairs));
    let all = log.push(entry) + later;
    lemma_find(log, id);
    lemma_find(all, id);
    assert(all[log.len() as int] == entry);
    assert forall|j: int| 0 <= j < log.len() implies all[j].0 != id by {
        assert(all[j] == log[j]);
    }
    assert(find(all, id) == Some(log.len() as int));
    lemma_decode_encode::<K, V>(pairs);
}

/// After one or more checkpoints a prune leaves exactly one entry, the one
/// that was appended last.
pub proof fn lemma_prune_keeps_newest(log: Log, appended: Log)
    requires
        appended.len() >= 1,
    ensures
        pruned(log + appended) == seq![appended.last()],
        pruned(log + appended).len() == 1,
{
    assert((log + appended).last() == appended.last());
}

/// The prune of an empty log is the empty log, and a second prune changes
/// nothing.
pub proof fn lemma_prune_again(log: Log)
    ensures
        pruned(Log::empty()) == Log::empty(),
        pruned(pruned(log)) == pruned(log),
{
}

/// A log of snapshots, each taken under a version identifier. Entries stay
/// in the order in which they were taken; the same identifier may occur more
/// than once.
#[derive(Debug)]
pub struct Storage {
    data: Vec<(Version, String)>,
}

impl View for Storage {
    type V = Log;

    closed spec fn view(&self) -> Log {
        pairs_of(self.data@)
    }
}

impl Storage {
    /// An empty log.
    pub fn new() -> (s: Self)
        ensures
            s@ == Log::empty(),
    {
        let s = Self { data: Vec::new() };
        assert(s@ =~= Log::empty());
        s
    }

    /// The number of entries in the log.
    pub fn len(&self) -> (n: usize)
        ensures
            n == self@.len(),
    {
        self.data.len()
    }

    /// The identifier of the entry at `index`, counted from the oldest.
    pub fn version(&self, index: usize) -> (r: Option<&Version>)
        ensures
            match r {
                Some(v) => index < self@.len() && v@ == self@[index as int].0,
                None => index >= self@.len(),
            },
    {
        if index < self.data.len() {
            Some(&self.data[index].0)
        } else {
            None
        }
    }

    /// The snapshot of the entry at `index`, counted from the oldest.
    pub fn snapshot(&self, index: usize) -> (r: Option<&String>)
        ensures
            match r {
                Some(s) => index < self@.len() && s@ == self@[index as int].1,
                None => index >= self@.len(),
            },
    {
        if index < self.data.len() {
            Some(&self.data[index].1)
        } else {
            None
        }
    }

    /// Takes a snapshot of `map` and appends it to the log under `version`,
    /// whether or not the log holds that identifier already.
    pub fn checkpoint<K: Key + Text, V: Text>(&mut self, version: Version, map: &KeyValueStore<K, V>)
        ensures
            final(self)@ == old(self)@.push((version@, encode::<K, V>(map@))),
    {
        let buf = map.serialize();
        self.data.push((version, buf));
        assert(self@ =~= old(self)@.push((version@, encode::<K, V>(map@))));
    }

    /// Replaces the pairs of `map` by those of the oldest snapshot taken
    /// under `version`. Where the log holds no such entry, or its snapshot
    /// cannot be read, `map` stays as it is and the result says which of the
    /// two it was.
    pub fn try_rollback<K: Key + Text, V: Text>(
        &self,
        version: Version,
        map: &mut KeyValueStore<K, V>,
    ) -> (r: Result<(), RollbackError>)
        ensures
            match r {
                Ok(_) => outcome::<K, V>(self@, version@) == Ok::<Seq<(K::V, V::V)>, RollbackError>(
                    final(map)@,
                ),
                Err(e) => outcome::<K, V>(self@, version@) == Err::<Seq<(K::V, V::V)>, RollbackError>(e)
                    && *final(map) == *old(map),
            },
    {
        let mut i: usize = 0;
        while i < self.data.len()
            invariant
                i <= self.data@.len(),
                self@ == pairs_of(self.data@),
                find(self@, version@) == find_from(self@, version@, i as int),
                *map == *old(map),
            decreases self.data@.len() - i,
        {
            if self.data[i].0.same(&version) {
                match KeyValueStore::<K, V>::deserialize(self.data[i].1.as_str()) {
                    Ok(found) => {
                        *map = found;
                        return Ok(());
                    },
                    Err(e) => {
                        return Err(RollbackError::Snapshot(e));
                    },
                }
            }
            i += 1;
        }
        Err(RollbackError::VersionNotFound)
    }

    /// Replaces the pairs of `map` by those of the oldest snapshot taken
    /// under `version`. Where the log holds no such entry, or its snapshot
    /// cannot be read, `map` stays as it is and the result is `false`.
    pub fn rollback<K: Key + Text, V: Text>(
        &self,
        version: Version,
        map: &mut KeyValueStore<K, V>,
    ) -> (ok: bool)
        ensures
            ok == restored::<K, V>(self@, version@) is Some,
            ok ==> final(map)@ == restored::<K, V>(self@, version@)->0,
            !ok ==> *final(map) == *old(map),
            find(self@, version@) is None ==> !ok,
    {
        self.try_rollback(version, map).is_ok()
    }

    /// Forgets every entry but the newest; an empty log stays empty.
    pub fn prune(&mut self)
        ensures
            final(self)@ == pruned(old(self)@),
    {
        if let Some(newest) = self.data.pop() {
            let mut data: Vec<(Version, String)> = Vec::new();
            data.push(newest);
            self.data = data;
            assert(self@ =~= pruned(old(self)@));
        }
    }
}

} // verus!
