//! Two sources stacked into one: a primary layer that shadows a parent layer.

use std::collections::BTreeMap;
use std::sync::Arc;
use tokio::sync::Notify;
use vstd::prelude::*;
use crate::error::ConfigError;
use crate::file::{FileConfig, changed_exactly};
use crate::id::IdGenerator;
use crate::registry::{WatchRegistry, notified_exactly, share};
use crate::source::{ConfigSource, Watch};
use crate::value::{ConfigValue, Json};

verus! {

broadcast use vstd::std_specs::btree::group_btree_axioms;

/// The two child watches installed for one watch on the overlay.
pub struct Link {
    /// The identifier the parent handed out.
    pub parent_id: u128,
    /// The identifier the primary handed out.
    pub source_id: u128,
}

/// The value under `key` seen through a primary layer over a parent layer:
/// the primary's where it has one, else the parent's.
pub open spec fn shadowed(primary: Option<Json>, parent: Option<Json>) -> Option<Json> {
    match primary {
        Some(v) => Some(v),
        None => parent,
    }
}

/// A source made of a parent (the fallback) and a primary source (preferred).
pub struct ConfigurationOverlay<P: ConfigSource, S: ConfigSource> {
    parent: P,
    source: S,
    /// The overlay's own watches: identifier to key, with the notifier.
    watchers: WatchRegistry,
    /// For each watch of the overlay, the child watches it installed.
    links: BTreeMap<u128, Link>,
    /// From the primary's identifier back to the overlay's.
    by_source: BTreeMap<u128, u128>,
}

impl<P: ConfigSource, S: ConfigSource> ConfigurationOverlay<P, S> {
    /// The parent layer.
    pub closed spec fn parent(&self) -> P {
        self.parent
    }

    /// The primary layer.
    pub closed spec fn primary(&self) -> S {
        self.source
    }

    /// The overlay's watches, their links and the primary's watches agree.
    closed spec fn links_ok(&self) -> bool {
        let w = self.watchers@;
        let l = self.links@;
        let bs = self.by_source@;
        let sw = self.source.watches();
        let pw = self.parent.watches();
        &&& self.watchers.wf()
        &&& forall|id: u128| #[trigger] w.contains_key(id) <==> l.contains_key(id)
        &&& self.source.keeps_watches() ==> forall|id: u128|
            #[trigger] l.contains_key(id) ==> sw.contains_key(l[id].source_id) && sw[l[id].source_id]
                == w[id] && bs.contains_key(l[id].source_id) && bs[l[id].source_id] == id
        &&& self.source.keeps_watches() ==> forall|sid: u128|
            #[trigger] bs.contains_key(sid) ==> l.contains_key(bs[sid]) && l[bs[sid]].source_id == sid
        &&& self.parent.keeps_watches() ==> forall|id: u128|
            #[trigger] l.contains_key(id) ==> pw.contains_key(l[id].parent_id) && pw[l[id].parent_id]
                == w[id]
        &&& self.parent.keeps_watches() ==> forall|a: u128, b: u128|
            #[trigger] l.contains_key(a) && #[trigger] l.contains_key(b) && a != b ==> l[a].parent_id
                != l[b].parent_id
    }

    /// The link installed for the overlay watch `id`.
    pub closed spec fn link_of(&self, id: u128) -> Link {
        self.links@[id]
    }

    /// Every watch of the overlay stands on a watch of the parent and a watch
    /// of the primary, each on the same key, wherever those layers record
    /// their watches.
    pub proof fn lemma_link(&self, id: u128)
        requires
            self.inv(),
            self.watches().contains_key(id),
        ensures
            self.parent().keeps_watches() ==> self.parent().watches().contains_key(
                self.link_of(id).parent_id,
            ) && self.parent().watches()[self.link_of(id).parent_id] == self.watches()[id],
            self.primary().keeps_watches() ==> self.primary().watches().contains_key(
                self.link_of(id).source_id,
            ) && self.primary().watches()[self.link_of(id).source_id] == self.watches()[id],
    {
        assert(self.links@.contains_key(id));
    }

    /// Stacks `source` over `parent`.
    pub fn new(parent: P, source: S) -> (r: Self)
        requires
            parent.inv(),
            source.inv(),
        ensures
            r.inv(),
            r.parent() == parent,
            r.primary() == source,
            r.watches() == Map::<u128, Seq<char>>::empty(),
    {
        ConfigurationOverlay {
            parent,
            source,
            watchers: WatchRegistry::new(),
            links: BTreeMap::new(),
            by_source: BTreeMap::new(),
        }
    }

    /// The overlay identifiers of the primary watches among `fired`, each once.
    fn lift_ids(&self, fired: &Vec<u128>) -> (r: Vec<u128>)
        requires
            self.links_ok(),
            self.source.keeps_watches(),
            fired@.no_duplicates(),
        ensures
            r@.no_duplicates(),
            forall|j: int|
                0 <= j < r.len() ==> self.links@.contains_key(#[trigger] r@[j]) && fired@.contains(
                    self.links@[r@[j]].source_id,
                ),
            forall|m: int|
                0 <= m < fired.len() && self.by_source@.contains_key(#[trigger] fired@[m])
                    ==> r@.contains(self.by_source@[fired@[m]]),
    {
        let ghost l = self.links@;
        let ghost bs = self.by_source@;
        let mut out: Vec<u128> = Vec::new();
        let mut k: usize = 0;
        while k < fired.len()
            invariant
                self.links_ok(),
                self.source.keeps_watches(),
                fired@.no_duplicates(),
                l == self.links@,
                bs == self.by_source@,
                k <= fired.len(),
                out@.no_duplicates(),
                forall|j: int|
                    0 <= j < out.len() ==> l.contains_key(#[trigger] out@[j]) && exists|m: int|
                        0 <= m < k && fired@[m] == l[out@[j]].source_id,
                forall|m: int|
                    0 <= m < k && bs.contains_key(#[trigger] fired@[m]) ==> out@.contains(bs[fired@[m]]),
            decreases fired.len() - k,
        {
            let sid = fired[k];
            match self.by_source.get(&sid) {
                Some(oid) => {
                    let oid = *oid;
                    let ghost prev = out@;
                    proof {
                        assert(bs.contains_key(sid) && bs[sid] == oid);
                        assert(l.contains_key(oid) && l[oid].source_id == sid);
                        assert forall|j: int| 0 <= j < prev.len() implies prev[j] != oid by {
                            let m = choose|m: int| 0 <= m < k && fired@[m] == l[prev[j]].source_id;
                            if prev[j] == oid {
                                assert(fired@[m] == fired@[k as int]);
                            }
                        }
                    }
                    out.push(oid);
                    proof {
                        assert forall|j: int| 0 <= j < out.len() implies l.contains_key(#[trigger] out@[j])
                            && exists|m: int| 0 <= m < k + 1 && fired@[m] == l[out@[j]].source_id by {
                            if j < prev.len() {
                                assert(out@[j] == prev[j]);
                                let m = choose|m: int| 0 <= m < k && fired@[m] == l[prev[j]].source_id;
                                assert(fired@[m] == l[out@[j]].source_id);
                            } else {
                                assert(out@[j] == oid);
                                assert(fired@[k as int] == l[out@[j]].source_id);
                            }
                        }
                        assert forall|m: int|
                            0 <= m < k + 1 && bs.contains_key(#[trigger] fired@[m]) implies out@.contains(
                                bs[fired@[m]],
                            ) by {
                            if m < k {
                                let x = choose|x: int| 0 <= x < prev.len() && prev[x] == bs[fired@[m]];
                                assert(out@[x] == prev[x]);
                            } else {
                                assert(out@[out@.len() - 1] == oid);
                            }
                        }
                    }
                },
                None => {
                    proof {
                        assert forall|j: int| 0 <= j < out.len() implies l.contains_key(#[trigger] out@[j])
                            && exists|m: int| 0 <= m < k + 1 && fired@[m] == l[out@[j]].source_id by {
                            let m = choose|m: int| 0 <= m < k && fired@[m] == l[out@[j]].source_id;
                        }
                    }
                },
            }
            k += 1;
        }
        proof {
            assert forall|j: int| 0 <= j < out.len() implies l.contains_key(#[trigger] out@[j])
                && fired@.contains(l[out@[j]].source_id) by {
                let m = choose|m: int| 0 <= m < fired.len() && fired@[m] == l[out@[j]].source_id;
            }
        }
        out
    }

    /// The overlay identifiers whose primary watch is among `fired`.
    fn lift(&self, fired: &Vec<u128>, Ghost(key): Ghost<Seq<char>>) -> (r: Vec<u128>)
        requires
            self.inv(),
            self.source.keeps_watches(),
            notified_exactly(fired@, self.source.watches(), key),
        ensures
            notified_exactly(r@, self.watches(), key),
    {
        let out = self.lift_ids(fired);
        let ghost w = self.watchers@;
        let ghost l = self.links@;
        let ghost bs = self.by_source@;
        let ghost sw = self.source.watches();
        proof {
            assert forall|j: int| 0 <= j < out.len() implies w.contains_key(#[trigger] out@[j]) && w[out@[j]]
                == key by {
                let m = choose|m: int| 0 <= m < fired.len() && fired@[m] == l[out@[j]].source_id;
                assert(fired@[m] == l[out@[j]].source_id);
                assert(l.contains_key(out@[j]));
            }
            assert forall|id: u128| w.contains_key(id) && w[id] == key implies out@.contains(id) by {
                assert(l.contains_key(id));
                let sid = l[id].source_id;
                assert(fired@.contains(sid));
                let m = choose|m: int| 0 <= m < fired.len() && fired@[m] == sid;
                assert(bs.contains_key(fired@[m]));
            }
        }
        out
    }
}

impl<P: ConfigSource> ConfigurationOverlay<P, FileConfig> {
    /// The path of the primary's backing file.
    pub fn path(&self) -> (r: &String)
        ensures
            r@ == self.primary().fname(),
    {
        self.source.path()
    }

    /// The primary's document to write back to its file.
    pub fn document(&self) -> (r: Result<ConfigValue, ConfigError>)
        requires
            self.inv(),
        ensures
            r matches Ok(d) ==> crate::flat::unflatten(self.primary().values()) == Ok::<
                Json,
                Seq<char>,
            >(d@),
            r matches Err(e) ==> e matches ConfigError::Conflict(k) && crate::flat::unflatten(
                self.primary().values(),
            ) == Err::<Json, Seq<char>>(k@),
    {
        self.source.document()
    }

    /// Reloads the primary file from `document` and returns the overlay
    /// watches whose key changed value in the file, each of which was
    /// signalled.
    pub fn reload(&mut self, document: &ConfigValue) -> (r: Vec<u128>)
        requires
            old(self).inv(),
        ensures
            final(self).inv(),
            final(self).parent() == old(self).parent(),
            final(self).primary().values() == crate::flat::flatten(document@),
            final(self).primary().fname() == old(self).primary().fname(),
            final(self).watches() == old(self).watches(),
            changed_exactly(
                r@,
                old(self).watches(),
                old(self).primary().values(),
                final(self).primary().values(),
            ),
    {
        let ghost old_self = *self;
        let ghost before = self.source.values();
        let fired = self.source.reload(document);
        let ghost after = self.source.values();
        let ghost w = self.watchers@;
        let ghost l = self.links@;
        let ghost bs = self.by_source@;
        let ghost sw = self.source.watches();
        proof {
            assert(old_self.links_ok());
            assert(self.links_ok());
        }
        let out = self.lift_ids(&fired);
        proof {
            assert forall|j: int| 0 <= j < out.len() implies w.contains_key(#[trigger] out@[j])
                && crate::flat::flat_get(before, w[out@[j]]) != crate::flat::flat_get(after, w[out@[j]]) by {
                let m = choose|m: int| 0 <= m < fired.len() && fired@[m] == l[out@[j]].source_id;
                assert(fired@[m] == l[out@[j]].source_id);
                assert(l.contains_key(out@[j]));
            }
            assert forall|id: u128|
                w.contains_key(id) && crate::flat::flat_get(before, w[id]) != crate::flat::flat_get(
                    after,
                    w[id],
                ) implies out@.contains(id) by {
                assert(l.contains_key(id));
                let sid = l[id].source_id;
                assert(fired@.contains(sid));
                let m = choose|m: int| 0 <= m < fired.len() && fired@[m] == sid;
                assert(bs.contains_key(fired@[m]));
            }
        }
        out
    }
}

impl<P: ConfigSource, S: ConfigSource> ConfigSource for ConfigurationOverlay<P, S> {
    closed spec fn inv(&self) -> bool {
        &&& self.parent.inv()
        &&& self.source.inv()
        &&& self.links_ok()
    }

    open spec fn lookup(&self, key: Seq<char>) -> Option<Json> {
        shadowed(self.primary().lookup(key), self.parent().lookup(key))
    }

    open spec fn fallback(&self, key: Seq<char>) -> Option<Json> {
        shadowed(self.primary().fallback(key), self.parent().lookup(key))
    }

    open spec fn writeable(&self) -> bool {
        self.primary().writeable()
    }

    open spec fn keeps_watches(&self) -> bool {
        true
    }

    closed spec fn watches(&self) -> Map<u128, Seq<char>> {
        self.watchers@
    }

    open spec fn entries(&self) -> Seq<(Seq<char>, Json)> {
        self.primary().entries()
    }

    proof fn lemma_entries_unique(&self) {
        self.source.lemma_entries_unique();
    }

    proof fn lemma_writeable_keeps(&self) {
    }

    fn get_value(&self, key: &str) -> (r: Option<ConfigValue>) {
        match self.source.get_value(key) {
            Some(v) => Some(v),
            None => self.parent.get_value(key),
        }
    }

    fn is_writeable(&self) -> (r: bool) {
        self.source.is_writeable()
    }

    fn set_value(&mut self, key: &str, value: ConfigValue) -> (r: Result<Vec<u128>, ConfigError>) {
        let ghost old_self = *self;
        proof {
            assert(old_self.links_ok());
        }
        let r = self.source.set_value(key, value);
        proof {
            self.source.lemma_writeable_keeps();
            assert(self.links_ok());
        }
        match r {
            Ok(fired) => Ok(self.lift(&fired, Ghost(key@))),
            Err(e) => Err(e),
        }
    }

    fn delete(&mut self, key: &str) -> (r: Result<Vec<u128>, ConfigError>) {
        let ghost old_self = *self;
        proof {
            assert(old_self.links_ok());
        }
        let r = self.source.delete(key);
        proof {
            self.source.lemma_writeable_keeps();
            assert(self.links_ok());
        }
        match r {
            Ok(fired) => Ok(self.lift(&fired, Ghost(key@))),
            Err(e) => Err(e),
        }
    }

    fn watch_property_with_notify(
        &mut self,
        key: &str,
        notify: Arc<Notify>,
        ids: &mut IdGenerator,
    ) -> (r: Watch) {
        let ghost old_self = *self;
        let ghost old_l = self.links@;
        let ghost old_bs = self.by_source@;
        let ghost old_w = self.watchers@;
        let ghost old_sw = self.source.watches();
        let ghost old_pw = self.parent.watches();
        proof {
            assert(old_self.links_ok());
        }
        let from_parent = self.parent.watch_property_with_notify(key, share(&notify), ids);
        let from_source = self.source.watch_property_with_notify(key, share(&notify), ids);
        let candidate = ids.generate();
        let id = self.watchers.fresh_id(candidate);
        let handle = share(&notify);
        self.watchers.add(id, String::from_str(key), notify);
        let pid = from_parent.id;
        let sid = from_source.id;
        self.links.insert(id, Link { parent_id: pid, source_id: sid });
        self.by_source.insert(sid, id);
        proof {
            let w = self.watchers@;
            let l = self.links@;
            let bs = self.by_source@;
            let sw = self.source.watches();
            let pw = self.parent.watches();
            assert(!old_l.contains_key(id));
            assert forall|x: u128| #[trigger] w.contains_key(x) <==> l.contains_key(x) by {
                if x != id {
                    assert(old_w.contains_key(x) <==> old_l.contains_key(x));
                }
            }
            if self.source.keeps_watches() {
                assert(!old_bs.contains_key(sid)) by {
                    if old_bs.contains_key(sid) {
                        assert(old_l.contains_key(old_bs[sid]));
                        assert(old_sw.contains_key(old_l[old_bs[sid]].source_id));
                    }
                }
                assert forall|x: u128| #[trigger] l.contains_key(x) implies sw.contains_key(l[x].source_id)
                    && sw[l[x].source_id] == w[x] && bs.contains_key(l[x].source_id)
                    && bs[l[x].source_id] == x by {
                    if x != id {
                        assert(old_l.contains_key(x));
                        assert(old_sw.contains_key(old_l[x].source_id));
                        assert(old_w.contains_key(x));
                    }
                }
                assert forall|y: u128| #[trigger] bs.contains_key(y) implies l.contains_key(bs[y])
                    && l[bs[y]].source_id == y by {
                    if y != sid {
                        assert(old_bs.contains_key(y));
                        assert(old_l.contains_key(old_bs[y]));
                        assert(old_bs[y] != id);
                    }
                }
            }
            if self.parent.keeps_watches() {
                assert forall|x: u128| #[trigger] l.contains_key(x) implies pw.contains_key(l[x].parent_id)
                    && pw[l[x].parent_id] == w[x] by {
                    if x != id {
                        assert(old_l.contains_key(x));
                        assert(old_pw.contains_key(old_l[x].parent_id));
                        assert(old_w.contains_key(x));
                    }
                }
                assert forall|a: u128, b: u128|
                    #[trigger] l.contains_key(a) && #[trigger] l.contains_key(b) && a != b implies l[a].parent_id
                    != l[b].parent_id by {
                    if a != id {
                        assert(old_l.contains_key(a));
                        assert(old_pw.contains_key(old_l[a].parent_id));
                    }
                    if b != id {
                        assert(old_l.contains_key(b));
                        assert(old_pw.contains_key(old_l[b].parent_id));
                    }
                }
            }
            assert(self.links_ok());
        }
        Watch { id, notify: handle }
    }

    fn delete_watcher(&mut self, id: u128) {
        let ghost old_self = *self;
        let ghost old_l = self.links@;
        let ghost old_bs = self.by_source@;
        let ghost old_w = self.watchers@;
        proof {
            assert(old_self.links_ok());
        }
        self.watchers.remove(id);
        match self.links.remove(&id) {
            Some(link) => {
                let ghost old_sw = self.source.watches();
                let ghost old_pw = self.parent.watches();
                proof {
                    assert(old_l.contains_key(id) && old_l[id] == link);
                }
                self.by_source.remove(&link.source_id);
                self.parent.delete_watcher(link.parent_id);
                self.source.delete_watcher(link.source_id);
                proof {
                    let w = self.watchers@;
                    let l = self.links@;
                    let bs = self.by_source@;
                    let sw = self.source.watches();
                    let pw = self.parent.watches();
                    assert forall|x: u128| #[trigger] w.contains_key(x) <==> l.contains_key(x) by {
                        if x != id {
                            assert(old_w.contains_key(x) <==> old_l.contains_key(x));
                        }
                    }
                    if self.source.keeps_watches() {
                        assert forall|x: u128| #[trigger] l.contains_key(x) implies sw.contains_key(
                            l[x].source_id,
                        ) && sw[l[x].source_id] == w[x] && bs.contains_key(l[x].source_id)
                            && bs[l[x].source_id] == x by {
                            assert(old_l.contains_key(x));
                            assert(old_sw.contains_key(old_l[x].source_id));
                            assert(old_bs.contains_key(old_l[x].source_id));
                            assert(old_l[x].source_id != link.source_id);
                            assert(old_w.contains_key(x));
                        }
                        assert forall|y: u128| #[trigger] bs.contains_key(y) implies l.contains_key(bs[y])
                            && l[bs[y]].source_id == y by {
                            assert(old_bs.contains_key(y));
                            assert(old_l.contains_key(old_bs[y]));
                        }
                    }
                    if self.parent.keeps_watches() {
                        assert forall|x: u128| #[trigger] l.contains_key(x) implies pw.contains_key(
                            l[x].parent_id,
                        ) && pw[l[x].parent_id] == w[x] by {
                            assert(old_l.contains_key(x));
                            assert(old_pw.contains_key(old_l[x].parent_id));
                            assert(old_l.contains_key(id));
                            assert(old_l[x].parent_id != link.parent_id);
                            assert(old_w.contains_key(x));
                        }
                        assert forall|a: u128, b: u128|
                            #[trigger] l.contains_key(a) && #[trigger] l.contains_key(b) && a != b implies l[a].parent_id
                            != l[b].parent_id by {
                            assert(old_l.contains_key(a) && old_l.contains_key(b));
                        }
                    }
                    assert(self.links_ok());
                }
            },
            None => {
                proof {
                    assert(!old_w.contains_key(id));
                    assert(self.watchers@ =~= old_w);
                    assert(self.links@ =~= old_l);
                    assert(self.links_ok());
                }
            },
        }
    }
}

} // verus!
