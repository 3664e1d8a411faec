//! The writable layer, backed by a document file.
//!
//! The source serves reads and writes from its flat map in memory. Reading and
//! writing the file itself, and noticing outside edits, happen around it: a
//! fresh document is handed to `reload`, and `document` gives what to write
//! back after a change.

use std::sync::Arc;
use tokio::sync::Notify;
use vstd::prelude::*;
use crate::error::ConfigError;
use crate::flat::{FlatMap, deserialize, flat_get, flatten, serialize, unflatten};
use crate::id::IdGenerator;
use crate::registry::{WatchRegistry, notified_exactly, share};
use crate::source::{ConfigSource, Watch};
use crate::value::{ConfigValue, Json};

verus! {

/// The model of an optional value.
pub open spec fn opt_view(o: Option<ConfigValue>) -> Option<Json> {
    match o {
        Some(v) => Some(v@),
        None => None,
    }
}

/// Tells whether two optional values are the same.
fn same_opt(a: &Option<ConfigValue>, b: &Option<ConfigValue>) -> (r: bool)
    ensures
        r == (opt_view(*a) == opt_view(*b)),
{
    match (a, b) {
        (Some(x), Some(y)) => x.same_as(y),
        (None, None) => true,
        _ => false,
    }
}

/// Exactly the watches whose key holds a different value, or no value, in
/// `after` than in `before`, each once; absence counts as a value of its own.
pub open spec fn changed_exactly(
    ids: Seq<u128>,
    watches: Map<u128, Seq<char>>,
    before: Seq<(Seq<char>, Json)>,
    after: Seq<(Seq<char>, Json)>,
) -> bool {
    &&& ids.no_duplicates()
    &&& forall|i: int|
        0 <= i < ids.len() ==> watches.contains_key(#[trigger] ids[i]) && flat_get(
            before,
            watches[ids[i]],
        ) != flat_get(after, watches[ids[i]])
    &&& forall|id: u128|
        watches.contains_key(id) && flat_get(before, watches[id]) != flat_get(after, watches[id])
            ==> ids.contains(id)
}

/// The mutable configuration backed by a document file.
pub struct FileConfig {
    fname: String,
    values: FlatMap,
    watchers: WatchRegistry,
}

impl FileConfig {
    /// The flat map currently served.
    pub closed spec fn values(&self) -> Seq<(Seq<char>, Json)> {
        self.values@
    }

    /// The path of the backing file.
    pub closed spec fn fname(&self) -> Seq<char> {
        self.fname@
    }

    /// The source for the file at `fname`, whose parsed contents are `document`.
    pub fn new(fname: String, document: &ConfigValue) -> (r: FileConfig)
        ensures
            r.inv(),
            r.fname() == fname@,
            r.values() == flatten(document@),
            r.watches() == Map::<u128, Seq<char>>::empty(),
    {
        FileConfig { fname, values: deserialize(document), watchers: WatchRegistry::new() }
    }

    /// The path of the backing file.
    pub fn path(&self) -> (r: &String)
        ensures
            r@ == self.fname(),
    {
        &self.fname
    }

    /// The document to write back to the file: the flat map rebuilt into
    /// nested tables.
    pub fn document(&self) -> (r: Result<ConfigValue, ConfigError>)
        requires
            self.inv(),
        ensures
            r matches Ok(d) ==> unflatten(self.values()) == Ok::<Json, Seq<char>>(d@),
            r matches Err(e) ==> e matches ConfigError::Conflict(k) && unflatten(self.values())
                == Err::<Json, Seq<char>>(k@),
    {
        serialize(&self.values)
    }

    /// Replaces the served map by the flat map of `document`, freshly read from
    /// the file, and signals every watch whose key changed value, appeared or
    /// disappeared, once. Returns the identifiers of those watches.
    pub fn reload(&mut self, document: &ConfigValue) -> (r: Vec<u128>)
        requires
            old(self).inv(),
        ensures
            final(self).inv(),
            final(self).fname() == old(self).fname(),
            final(self).values() == flatten(document@),
            final(self).watches() == old(self).watches(),
            changed_exactly(r@, old(self).watches(), old(self).values(), final(self).values()),
    {
        let mut previous = deserialize(document);
        std::mem::swap(&mut previous, &mut self.values);
        let ghost before = previous@;
        let ghost after = self.values@;
        let ghost w = self.watchers@;
        let mut out: Vec<u128> = Vec::new();
        let n = previous.len();
        let mut i: usize = 0;
        while i < n
            invariant
                self.inv(),
                previous.wf(),
                previous@ == before,
                self.values@ == after,
                self.watchers@ == w,
                n == before.len(),
                i <= n,
                out@.no_duplicates(),
                forall|j: int|
                    0 <= j < out.len() ==> w.contains_key(#[trigger] out@[j]) && flat_get(
                        before,
                        w[out@[j]],
                    ) != flat_get(after, w[out@[j]]) && exists|t: int| 0 <= t < i && before[t].0 == w[out@[j]],
                forall|id: u128|
                    w.contains_key(id) && flat_get(before, w[id]) != flat_get(after, w[id]) && (
                    exists|t: int| 0 <= t < i && before[t].0 == w[id]) ==> out@.contains(id),
            decreases n - i,
        {
            let key = previous.key_at(i);
            let old_value = previous.get(key.as_str());
            let new_value = self.values.get(key.as_str());
            proof {
                crate::flat::lemma_index_of(before, key@);
            }
            if !same_opt(&old_value, &new_value) {
                let mut fired = self.watchers.notify_key(key);
                let ghost a = out@;
                let ghost f = fired@;
                out.append(&mut fired);
                proof {
                    assert(out@ == a + f);
                    assert forall|x: int, y: int| 0 <= x < a.len() && 0 <= y < f.len() implies a[x] != f[y] by {
                        let t = choose|t: int| 0 <= t < i && before[t].0 == w[a[x]];
                        assert(w[f[y]] == key@);
                        assert(before[i as int].0 == key@);
                    }
                    lemma_no_dup_append(a, f);
                    assert forall|j: int| 0 <= j < out.len() implies w.contains_key(#[trigger] out@[j])
                        && flat_get(before, w[out@[j]]) != flat_get(after, w[out@[j]]) && exists|t: int|
                        0 <= t < i + 1 && before[t].0 == w[out@[j]] by {
                        if j < a.len() {
                            assert(out@[j] == a[j]);
                            let t = choose|t: int| 0 <= t < i && before[t].0 == w[a[j]];
                            assert(before[t].0 == w[out@[j]]);
                        } else {
                            assert(out@[j] == f[j - a.len()]);
                            assert(before[i as int].0 == w[out@[j]]);
                        }
                    }
                    assert forall|id: u128|
                        w.contains_key(id) && flat_get(before, w[id]) != flat_get(after, w[id]) && (
                        exists|t: int| 0 <= t < i + 1 && before[t].0 == w[id]) implies out@.contains(id) by {
                        if w[id] == key@ {
                            let m = choose|m: int| 0 <= m < f.len() && f[m] == id;
                            assert(out@[a.len() + m] == id);
                        } else {
                            let t = choose|t: int| 0 <= t < i + 1 && before[t].0 == w[id];
                            assert(t < i);
                            let m = choose|m: int| 0 <= m < a.len() && a[m] == id;
                            assert(out@[m] == id);
                        }
                    }
                }
            } else {
                proof {
                    assert forall|id: u128|
                        w.contains_key(id) && flat_get(before, w[id]) != flat_get(after, w[id]) && (
                        exists|t: int| 0 <= t < i + 1 && before[t].0 == w[id]) implies out@.contains(id) by {
                        let t = choose|t: int| 0 <= t < i + 1 && before[t].0 == w[id];
                        if t == i {
                            assert(w[id] == key@);
                        }
                    }
                    assert forall|j: int| 0 <= j < out.len() implies exists|t: int|
                        0 <= t < i + 1 && before[t].0 == w[#[trigger] out@[j]] by {
                        let t = choose|t: int| 0 <= t < i && before[t].0 == w[out@[j]];
                    }
                }
            }
            i += 1;
        }
        let m = self.values.len();
        let mut i: usize = 0;
        while i < m
            invariant
                self.inv(),
                previous.wf(),
                previous@ == before,
                self.values@ == after,
                self.watchers@ == w,
                m == after.len(),
                i <= m,
                out@.no_duplicates(),
                forall|j: int|
                    0 <= j < out.len() ==> w.contains_key(#[trigger] out@[j]) && flat_get(
                        before,
                        w[out@[j]],
                    ) != flat_get(after, w[out@[j]]) && (crate::flat::has_key(before, w[out@[j]])
                        || exists|t: int| 0 <= t < i && after[t].0 == w[out@[j]]),
                forall|id: u128|
                    w.contains_key(id) && flat_get(before, w[id]) != flat_get(after, w[id]) && (
                    crate::flat::has_key(before, w[id]) || exists|t: int|
                        0 <= t < i && after[t].0 == w[id]) ==> out@.contains(id),
            decreases m - i,
        {
            let key = self.values.key_at(i);
            let old_value = previous.get(key.as_str());
            proof {
                crate::flat::lemma_index_of(after, key@);
                crate::flat::lemma_index_of(before, key@);
            }
            if old_value.is_none() {
                let mut fired = self.watchers.notify_key(key);
                let ghost a = out@;
                let ghost f = fired@;
                out.append(&mut fired);
                proof {
                    assert(out@ == a + f);
                    assert(after[i as int].0 == key@);
                    assert forall|x: int, y: int| 0 <= x < a.len() && 0 <= y < f.len() implies a[x] != f[y] by {
                        assert(w[f[y]] == key@);
                        if !crate::flat::has_key(before, w[a[x]]) {
                            let t = choose|t: int| 0 <= t < i && after[t].0 == w[a[x]];
                        }
                    }
                    lemma_no_dup_append(a, f);
                    assert forall|j: int| 0 <= j < out.len() implies w.contains_key(#[trigger] out@[j])
                        && flat_get(before, w[out@[j]]) != flat_get(after, w[out@[j]]) && (
                        crate::flat::has_key(before, w[out@[j]]) || exists|t: int|
                            0 <= t < i + 1 && after[t].0 == w[out@[j]]) by {
                        if j < a.len() {
                            assert(out@[j] == a[j]);
                            if !crate::flat::has_key(before, w[a[j]]) {
                                let t = choose|t: int| 0 <= t < i && after[t].0 == w[a[j]];
                                assert(after[t].0 == w[out@[j]]);
                            }
                        } else {
                            assert(out@[j] == f[j - a.len()]);
                            assert(after[i as int].0 == w[out@[j]]);
                        }
                    }
                    assert forall|id: u128|
                        w.contains_key(id) && flat_get(before, w[id]) != flat_get(after, w[id]) && (
                        crate::flat::has_key(before, w[id]) || exists|t: int|
                            0 <= t < i + 1 && after[t].0 == w[id]) implies out@.contains(id) by {
                        if w[id] == key@ {
                            let m = choose|m: int| 0 <= m < f.len() && f[m] == id;
                            assert(out@[a.len() + m] == id);
                        } else {
                            if !crate::flat::has_key(before, w[id]) {
                                let t = choose|t: int| 0 <= t < i + 1 && after[t].0 == w[id];
                                assert(t < i);
                            }
                            let m = choose|m: int| 0 <= m < a.len() && a[m] == id;
                            assert(out@[m] == id);
                        }
                    }
                }
            } else {
                proof {
                    assert forall|id: u128|
                        w.contains_key(id) && flat_get(before, w[id]) != flat_get(after, w[id]) && (
                        crate::flat::has_key(before, w[id]) || exists|t: int|
                            0 <= t < i + 1 && after[t].0 == w[id]) implies out@.contains(id) by {
                        if !crate::flat::has_key(before, w[id]) {
                            let t = choose|t: int| 0 <= t < i + 1 && after[t].0 == w[id];
                            if t == i {
                                assert(w[id] == key@);
                            }
                        }
                    }
                    assert forall|j: int| 0 <= j < out.len() implies crate::flat::has_key(before, w[#[trigger] out@[j]])
                        || exists|t: int| 0 <= t < i + 1 && after[t].0 == w[out@[j]] by {
                        if !crate::flat::has_key(before, w[out@[j]]) {
                            let t = choose|t: int| 0 <= t < i && after[t].0 == w[out@[j]];
                        }
                    }
                }
            }
            i += 1;
        }
        proof {
            assert forall|id: u128|
                w.contains_key(id) && flat_get(before, w[id]) != flat_get(
                    after,
                    w[id],
                ) implies out@.contains(id) by {
                crate::flat::lemma_index_of(before, w[id]);
                crate::flat::lemma_index_of(after, w[id]);
                if !crate::flat::has_key(before, w[id]) {
                    let j = index_of_witness(after, w[id]);
                }
            }
        }
        out
    }
}

/// Two lists without repeats and without a common element make a list
/// without repeats.
proof fn lemma_no_dup_append(a: Seq<u128>, b: Seq<u128>)
    requires
        a.no_duplicates(),
        b.no_duplicates(),
        forall|x: int, y: int| 0 <= x < a.len() && 0 <= y < b.len() ==> a[x] != b[y],
    ensures
        (a + b).no_duplicates(),
{
    let c = a + b;
    assert forall|x: int, y: int| 0 <= x < c.len() && 0 <= y < c.len() && x != y implies c[x] != c[y] by {
        if x < a.len() && y >= a.len() {
            assert(c[y] == b[y - a.len()]);
        } else if x >= a.len() && y < a.len() {
            assert(c[x] == b[x - a.len()]);
        } else if x >= a.len() {
            assert(c[x] == b[x - a.len()] && c[y] == b[y - a.len()]);
        }
    }
}

/// An entry under `k`, given that `k` is present.
proof fn index_of_witness(m: Seq<(Seq<char>, Json)>, k: Seq<char>) -> (j: int)
    requires
        flat_get(m, k) is Some,
    ensures
        0 <= j < m.len(),
        m[j].0 == k,
{
    crate::flat::lemma_index_of(m, k);
    crate::flat::index_of(m, k)
}

impl ConfigSource for FileConfig {
    closed spec fn inv(&self) -> bool {
        self.values.wf() && self.watchers.wf()
    }

    open spec fn lookup(&self, key: Seq<char>) -> Option<Json> {
        flat_get(self.values(), key)
    }

    open spec fn fallback(&self, key: Seq<char>) -> Option<Json> {
        None
    }

    open spec fn writeable(&self) -> bool {
        true
    }

    open spec fn keeps_watches(&self) -> bool {
        true
    }

    closed spec fn watches(&self) -> Map<u128, Seq<char>> {
        self.watchers@
    }

    open spec fn entries(&self) -> Seq<(Seq<char>, Json)> {
        self.values()
    }

    proof fn lemma_entries_unique(&self) {
    }

    proof fn lemma_writeable_keeps(&self) {
    }

    fn get_value(&self, key: &str) -> (r: Option<ConfigValue>) {
        self.values.get(key)
    }

    fn is_writeable(&self) -> (r: bool) {
        true
    }

    fn set_value(&mut self, key: &str, value: ConfigValue) -> (r: Result<Vec<u128>, ConfigError>) {
        let k = String::from_str(key);
        proof {
            crate::flat::lemma_flat_insert(self.values@, k@, value@);
        }
        self.values.insert(k, value);
        let k = String::from_str(key);
        Ok(self.watchers.notify_key(&k))
    }

    fn delete(&mut self, key: &str) -> (r: Result<Vec<u128>, ConfigError>) {
        proof {
            crate::flat::lemma_flat_remove(self.values@, key@);
        }
        self.values.remove(key);
        let k = String::from_str(key);
        Ok(self.watchers.notify_key(&k))
    }

    fn watch_property_with_notify(
        &mut self,
        key: &str,
        notify: Arc<Notify>,
        ids: &mut IdGenerator,
    ) -> (r: Watch) {
        let candidate = ids.generate();
        let id = self.watchers.fresh_id(candidate);
        let handle = share(&notify);
        self.watchers.add(id, String::from_str(key), notify);
        Watch { id, notify: handle }
    }

    fn delete_watcher(&mut self, id: u128) {
        self.watchers.remove(id);
    }
}

} // verus!
