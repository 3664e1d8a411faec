//! The watch registrations of one source: which key each identifier watches,
//! and for each watched key its watches and their notifiers, so that a change
//! reaches the watches on its key without a walk over all the others.

use std::sync::Arc;
use tokio::sync::Notify;
use vstd::prelude::*;

verus! {

#[verifier::external_type_specification]
#[verifier::external_body]
pub struct ExNotify(tokio::sync::Notify);

/// Relies on tokio's `Notify::new`: a notifier without a stored permit.
pub assume_specification[ tokio::sync::Notify::new ]() -> tokio::sync::Notify;

/// Relies on tokio's `Notify::notify_one`: wakes one waiting task, or stores a
/// permit for the next wait. Nothing about the notifier is visible here.
pub assume_specification[ tokio::sync::Notify::notify_one ](n: &tokio::sync::Notify);

/// Relies on `Arc::clone`: a second handle to the same notifier.
#[verifier::external_body]
pub(crate) fn share(n: &Arc<Notify>) -> (r: Arc<Notify>)
    ensures
        r == *n,
{
    Arc::clone(n)
}

/// Exactly the identifiers that `watches` maps to `key`, each once.
pub open spec fn notified_exactly(ids: Seq<u128>, watches: Map<u128, Seq<char>>, key: Seq<char>) -> bool {
    &&& ids.no_duplicates()
    &&& forall|i: int| 0 <= i < ids.len() ==> watches.contains_key(#[trigger] ids[i]) && watches[ids[i]] == key
    &&& forall|id: u128| watches.contains_key(id) && watches[id] == key ==> ids.contains(id)
}

/// One watch: its identifier and the key it observes.
pub struct Registration {
    pub id: u128,
    pub key: String,
}

/// The watches on one key, with their notifiers.
pub struct Listener {
    pub key: String,
    pub watchers: Vec<(u128, Arc<Notify>)>,
}

/// The identifiers of the watches on one key.
pub open spec fn ids_of(l: Listener) -> Seq<u128> {
    l.watchers@.map_values(|p: (u128, Arc<Notify>)| p.0)
}

/// The map from identifier to key described by a list of registrations.
pub open spec fn watch_map(s: Seq<Registration>) -> Map<u128, Seq<char>>
    decreases s.len(),
{
    if s.len() == 0 {
        Map::empty()
    } else {
        watch_map(s.drop_last()).insert(s.last().id, s.last().key@)
    }
}

/// No two registrations share an identifier.
pub open spec fn unique_ids(s: Seq<Registration>) -> bool {
    forall|i: int, j: int| 0 <= i < s.len() && 0 <= j < s.len() && i != j ==> s[i].id != s[j].id
}

/// With unique identifiers, the map holds each registration and nothing else.
pub proof fn lemma_watch_map(s: Seq<Registration>)
    requires
        unique_ids(s),
    ensures
        forall|i: int|
            0 <= i < s.len() ==> #[trigger] watch_map(s).contains_key(s[i].id) && watch_map(s)[s[i].id]
                == s[i].key@,
        forall|id: u128|
            #[trigger] watch_map(s).contains_key(id) ==> exists|i: int| 0 <= i < s.len() && s[i].id == id,
        watch_map(s).dom().finite(),
        watch_map(s).dom().len() <= s.len(),
    decreases s.len(),
{
    if s.len() > 0 {
        let p = s.drop_last();
        assert(unique_ids(p));
        lemma_watch_map(p);
        assert forall|id: u128| #[trigger] watch_map(s).contains_key(id) implies exists|i: int|
            0 <= i < s.len() && s[i].id == id by {
            if id != s.last().id {
                let i = choose|i: int| 0 <= i < p.len() && p[i].id == id;
                assert(s[i].id == id);
            }
        }
        assert forall|i: int| 0 <= i < s.len() implies #[trigger] watch_map(s).contains_key(s[i].id)
            && watch_map(s)[s[i].id] == s[i].key@ by {
            if i < s.len() - 1 {
                assert(p[i] == s[i]);
                assert(s[i].id != s.last().id);
            }
        }
        assert(watch_map(s).dom() == watch_map(p).dom().insert(s.last().id));
    }
}

/// Dropping one registration drops its identifier from the map.
pub proof fn lemma_watch_map_remove(s: Seq<Registration>, i: int)
    requires
        unique_ids(s),
        0 <= i < s.len(),
    ensures
        unique_ids(s.remove(i)),
        watch_map(s.remove(i)) == watch_map(s).remove(s[i].id),
{
    let r = s.remove(i);
    assert(unique_ids(r));
    lemma_watch_map(s);
    lemma_watch_map(r);
    assert forall|id: u128| #[trigger] watch_map(r).contains_key(id) implies watch_map(s).remove(
        s[i].id,
    ).contains_key(id) && watch_map(r)[id] == watch_map(s)[id] by {
        let j = choose|j: int| 0 <= j < r.len() && r[j].id == id;
        assert(watch_map(r).contains_key(r[j].id) && watch_map(r)[r[j].id] == r[j].key@);
        let js = if j < i { j } else { j + 1 };
        assert(r[j] == s[js]);
        assert(js != i);
        assert(s[js].id != s[i].id);
        assert(watch_map(s).contains_key(s[js].id) && watch_map(s)[s[js].id] == s[js].key@);
    }
    assert forall|id: u128| #[trigger] watch_map(s).remove(s[i].id).contains_key(id) implies watch_map(
        r,
    ).contains_key(id) by {
        let j = choose|j: int| 0 <= j < s.len() && s[j].id == id;
        if j < i {
            assert(r[j] == s[j]);
        } else {
            assert(r[j - 1] == s[j]);
        }
    }
    assert(watch_map(r) =~= watch_map(s).remove(s[i].id));
}

/// The watch registrations of a source: which key each identifier watches,
/// and for each watched key, its watches and their notifiers. A key without
/// watches has no entry.
pub struct WatchRegistry {
    regs: Vec<Registration>,
    listeners: Vec<Listener>,
}

impl View for WatchRegistry {
    type V = Map<u128, Seq<char>>;

    closed spec fn view(&self) -> Map<u128, Seq<char>> {
        watch_map(self.regs@)
    }
}

/// The listener entries agree with the map `w` from identifier to key: keys
/// are unique, every entry has watches and no repeated identifier, and each
/// identifier of `w` sits in the entry of its key.
pub open spec fn listeners_agree(ls: Seq<Listener>, w: Map<u128, Seq<char>>) -> bool {
    &&& forall|a: int, b: int| 0 <= a < ls.len() && 0 <= b < ls.len() && a != b ==> ls[a].key@ != ls[b].key@
    &&& forall|a: int|
        0 <= a < ls.len() ==> ids_of(#[trigger] ls[a]).len() > 0 && ids_of(ls[a]).no_duplicates()
    &&& forall|a: int, t: int|
        0 <= a < ls.len() && 0 <= t < ids_of(ls[a]).len() ==> w.contains_key(#[trigger] ids_of(ls[a])[t])
            && w[ids_of(ls[a])[t]] == ls[a].key@
    &&& forall|id: u128|
        #[trigger] w.contains_key(id) ==> exists|a: int| 0 <= a < ls.len() && ids_of(ls[a]).contains(id)
}

impl WatchRegistry {
    /// Identifiers are unique, and the per-key entries agree with them.
    pub closed spec fn wf(&self) -> bool {
        &&& unique_ids(self.regs@)
        &&& listeners_agree(self.listeners@, watch_map(self.regs@))
    }

    /// No registrations.
    pub fn new() -> (r: WatchRegistry)
        ensures
            r.wf(),
            r@ == Map::<u128, Seq<char>>::empty(),
    {
        WatchRegistry { regs: Vec::new(), listeners: Vec::new() }
    }

    /// The position of the registration with identifier `id`.
    fn position(&self, id: u128) -> (r: Option<usize>)
        requires
            self.wf(),
        ensures
            r is None <==> !self@.contains_key(id),
            r matches Some(i) ==> i < self.regs.len() && self.regs@[i as int].id == id,
    {
        proof {
            lemma_watch_map(self.regs@);
        }
        let mut i: usize = 0;
        while i < self.regs.len()
            invariant
                self.wf(),
                i <= self.regs.len(),
                forall|j: int| 0 <= j < i ==> self.regs@[j].id != id,
            decreases self.regs.len() - i,
        {
            if self.regs[i].id == id {
                proof {
                    lemma_watch_map(self.regs@);
                }
                return Some(i);
            }
            i += 1;
        }
        proof {
            lemma_watch_map(self.regs@);
        }
        None
    }

    /// The position of the entry for `key`.
    fn find_listener(&self, key: &String) -> (r: Option<usize>)
        ensures
            r is None ==> forall|a: int| 0 <= a < self.listeners@.len() ==> self.listeners@[a].key@ != key@,
            r matches Some(a) ==> a < self.listeners.len() && self.listeners@[a as int].key@ == key@,
    {
        let mut a: usize = 0;
        while a < self.listeners.len()
            invariant
                a <= self.listeners.len(),
                forall|b: int| 0 <= b < a ==> self.listeners@[b].key@ != key@,
            decreases self.listeners.len() - a,
        {
            if self.listeners[a].key == *key {
                return Some(a);
            }
            a += 1;
        }
        None
    }

    /// Tells whether `id` is registered.
    pub fn contains(&self, id: u128) -> (r: bool)
        requires
            self.wf(),
        ensures
            r == self@.contains_key(id),
    {
        self.position(id).is_some()
    }

    /// An identifier not yet registered: `candidate` where it is free, else
    /// the smallest free one.
    pub fn fresh_id(&self, candidate: u128) -> (r: u128)
        requires
            self.wf(),
        ensures
            !self@.contains_key(r),
            !self@.contains_key(candidate) ==> r == candidate,
    {
        if !self.contains(candidate) {
            return candidate;
        }
        proof {
            lemma_watch_map(self.regs@);
        }
        let n = self.regs.len();
        let mut j: u128 = 0;
        let ghost mut tried: Set<u128> = Set::empty();
        while j <= n as u128
            invariant
                self.wf(),
                self@.contains_key(candidate),
                n == self.regs.len(),
                j <= n as u128 + 1,
                tried.finite(),
                tried.len() == j,
                tried.subset_of(self@.dom()),
                forall|x: u128| #[trigger] tried.contains(x) ==> x < j,
                self@.dom().finite(),
                self@.dom().len() <= n,
            decreases n as u128 + 1 - j,
        {
            if !self.contains(j) {
                return j;
            }
            proof {
                tried = tried.insert(j);
            }
            j += 1;
        }
        proof {
            vstd::set_lib::lemma_len_subset(tried, self@.dom());
        }
        j
    }

    /// Registers `notify` under `id` to watch `key`.
    pub fn add(&mut self, id: u128, key: String, notify: Arc<Notify>)
        requires
            old(self).wf(),
            !old(self)@.contains_key(id),
        ensures
            final(self).wf(),
            final(self)@ == old(self)@.insert(id, key@),
    {
        proof {
            lemma_watch_map(self.regs@);
        }
        let ghost before = self.regs@;
        let ghost w = self@;
        let ghost ls = self.listeners@;
        self.regs.push(Registration { id, key: key.clone() });
        proof {
            assert(self.regs@.drop_last() =~= before);
            assert forall|i: int, j: int|
                0 <= i < self.regs@.len() && 0 <= j < self.regs@.len() && i != j implies self.regs@[i].id
                != self.regs@[j].id by {
                if i < before.len() && j < before.len() {
                    assert(self.regs@[i] == before[i] && self.regs@[j] == before[j]);
                } else if i < before.len() {
                    assert(watch_map(before).contains_key(before[i].id));
                } else if j < before.len() {
                    assert(watch_map(before).contains_key(before[j].id));
                }
            }
        }
        let ghost w2 = self@;
        assert(w2 == w.insert(id, key@));
        match self.find_listener(&key) {
            Some(a) => {
                let mut l = self.listeners.remove(a);
                let ghost old_l = l;
                l.watchers.push((id, notify));
                proof {
                    assert(ids_of(l) =~= ids_of(old_l).push(id));
                    assert(ls[a as int] == old_l);
                    assert(!ids_of(old_l).contains(id)) by {
                        if ids_of(old_l).contains(id) {
                            let t = choose|t: int| 0 <= t < ids_of(old_l).len() && ids_of(old_l)[t] == id;
                            assert(w.contains_key(ids_of(ls[a as int])[t]));
                        }
                    }
                }
                self.listeners.insert(a, l);
                proof {
                    let ls2 = self.listeners@;
                    assert(ls2 =~= ls.update(a as int, l));
                    assert forall|b: int| 0 <= b < ls2.len() implies ids_of(#[trigger] ls2[b]).len() > 0
                        && ids_of(ls2[b]).no_duplicates() by {
                        if b != a {
                            assert(ls2[b] == ls[b]);
                        }
                    }
                    assert forall|b: int, t: int|
                        0 <= b < ls2.len() && 0 <= t < ids_of(ls2[b]).len() implies w2.contains_key(
                            #[trigger] ids_of(ls2[b])[t],
                        ) && w2[ids_of(ls2[b])[t]] == ls2[b].key@ by {
                        if b != a {
                            assert(ls2[b] == ls[b]);
                            assert(w.contains_key(ids_of(ls[b])[t]));
                        } else if t < ids_of(old_l).len() {
                            assert(ids_of(ls2[b])[t] == ids_of(ls[b])[t]);
                            assert(w.contains_key(ids_of(ls[b])[t]));
                        }
                    }
                    assert forall|x: u128| #[trigger] w2.contains_key(x) implies exists|b: int|
                        0 <= b < ls2.len() && ids_of(ls2[b]).contains(x) by {
                        if x == id {
                            assert(ids_of(ls2[a as int])[ids_of(old_l).len() as int] == id);
                        } else {
                            assert(w.contains_key(x));
                            let b = choose|b: int| 0 <= b < ls.len() && ids_of(ls[b]).contains(x);
                            let t = choose|t: int| 0 <= t < ids_of(ls[b]).len() && ids_of(ls[b])[t] == x;
                            if b == a {
                                assert(ids_of(ls2[b])[t] == x);
                            } else {
                                assert(ls2[b] == ls[b]);
                            }
                        }
                    }
                    assert(listeners_agree(ls2, w2));
                }
            },
            None => {
                let mut watchers: Vec<(u128, Arc<Notify>)> = Vec::new();
                watchers.push((id, notify));
                let l = Listener { key, watchers };
                self.listeners.push(l);
                proof {
                    let ls2 = self.listeners@;
                    assert(ls2 =~= ls.push(l));
                    assert(ids_of(l) =~= seq![id]);
                    assert forall|b: int| 0 <= b < ls2.len() implies ids_of(#[trigger] ls2[b]).len() > 0
                        && ids_of(ls2[b]).no_duplicates() by {
                        if b < ls.len() {
                            assert(ls2[b] == ls[b]);
                        }
                    }
                    assert forall|b: int, t: int|
                        0 <= b < ls2.len() && 0 <= t < ids_of(ls2[b]).len() implies w2.contains_key(
                            #[trigger] ids_of(ls2[b])[t],
                        ) && w2[ids_of(ls2[b])[t]] == ls2[b].key@ by {
                        if b < ls.len() {
                            assert(ls2[b] == ls[b]);
                            assert(w.contains_key(ids_of(ls[b])[t]));
                        }
                    }
                    assert forall|x: u128| #[trigger] w2.contains_key(x) implies exists|b: int|
                        0 <= b < ls2.len() && ids_of(ls2[b]).contains(x) by {
                        if x == id {
                            assert(ids_of(ls2[ls.len() as int])[0] == id);
                        } else {
                            assert(w.contains_key(x));
                            let b = choose|b: int| 0 <= b < ls.len() && ids_of(ls[b]).contains(x);
                            assert(ls2[b] == ls[b]);
                        }
                    }
                    assert(listeners_agree(ls2, w2));
                }
            },
        }
    }

    /// The position of `id` among the watches of one entry.
    fn position_in(l: &Listener, id: u128) -> (r: Option<usize>)
        ensures
            r is None ==> !ids_of(*l).contains(id),
            r matches Some(t) ==> t < l.watchers.len() && ids_of(*l)[t as int] == id,
    {
        let mut t: usize = 0;
        while t < l.watchers.len()
            invariant
                t <= l.watchers.len(),
                forall|u: int| 0 <= u < t ==> ids_of(*l)[u] != id,
            decreases l.watchers.len() - t,
        {
            if l.watchers[t].0 == id {
                return Some(t);
            }
            t += 1;
        }
        None
    }

    /// Drops the registration of `id`, if there is one, and the entry of its
    /// key once no watch is left on it.
    pub fn remove(&mut self, id: u128)
        requires
            old(self).wf(),
        ensures
            final(self).wf(),
            final(self)@ == old(self)@.remove(id),
    {
        let i = match self.position(id) {
            Some(i) => i,
            None => {
                proof {
                    assert(self@ =~= self@.remove(id));
                }
                return;
            },
        };
        let ghost w = self@;
        let ghost ls = self.listeners@;
        proof {
            lemma_watch_map(self.regs@);
            lemma_watch_map_remove(self.regs@, i as int);
        }
        let reg = self.regs.remove(i);
        let ghost w2 = self@;
        assert(w2 == w.remove(id));
        assert(w[id] == reg.key@);
        let a = match self.find_listener(&reg.key) {
            Some(a) => a,
            None => {
                proof {
                    let b = choose|b: int| 0 <= b < ls.len() && ids_of(ls[b]).contains(id);
                    let t = choose|t: int| 0 <= t < ids_of(ls[b]).len() && ids_of(ls[b])[t] == id;
                    assert(w[ids_of(ls[b])[t]] == ls[b].key@);
                }
                return;
            },
        };
        proof {
            assert(ids_of(ls[a as int]).contains(id)) by {
                let b = choose|b: int| 0 <= b < ls.len() && ids_of(ls[b]).contains(id);
                let t = choose|t: int| 0 <= t < ids_of(ls[b]).len() && ids_of(ls[b])[t] == id;
                assert(w[ids_of(ls[b])[t]] == ls[b].key@);
            }
        }
        let mut l = self.listeners.remove(a);
        let ghost old_l = l;
        let t = match WatchRegistry::position_in(&l, id) {
            Some(t) => t,
            None => {
                return;
            },
        };
        l.watchers.remove(t);
        proof {
            assert(ids_of(l) =~= ids_of(old_l).remove(t as int));
            assert(ls[a as int] == old_l);
            assert forall|u: int| 0 <= u < ids_of(l).len() implies #[trigger] ids_of(l)[u] != id by {
                if u < t {
                    assert(ids_of(l)[u] == ids_of(old_l)[u]);
                } else {
                    assert(ids_of(l)[u] == ids_of(old_l)[u + 1]);
                }
            }
        }
        if l.watchers.len() > 0 {
            self.listeners.insert(a, l);
            proof {
                let ls2 = self.listeners@;
                assert(ls2 =~= ls.update(a as int, l));
                assert forall|b: int| 0 <= b < ls2.len() implies ids_of(#[trigger] ls2[b]).len() > 0
                    && ids_of(ls2[b]).no_duplicates() by {
                    if b != a {
                        assert(ls2[b] == ls[b]);
                    }
                }
                assert forall|b: int, u: int|
                    0 <= b < ls2.len() && 0 <= u < ids_of(ls2[b]).len() implies w2.contains_key(
                        #[trigger] ids_of(ls2[b])[u],
                    ) && w2[ids_of(ls2[b])[u]] == ls2[b].key@ by {
                    if b != a {
                        assert(ls2[b] == ls[b]);
                        assert(w.contains_key(ids_of(ls[b])[u]));
                        assert(ids_of(ls[b])[u] != id) by {
                            if ids_of(ls[b])[u] == id {
                                assert(w[id] == ls[b].key@);
                            }
                        }
                    } else {
                        let x = ids_of(l)[u];
                        let v = if u < t { u } else { u + 1 };
                        assert(x == ids_of(old_l)[v]);
                        assert(w.contains_key(ids_of(ls[b])[v]));
                    }
                }
                assert forall|x: u128| #[trigger] w2.contains_key(x) implies exists|b: int|
                    0 <= b < ls2.len() && ids_of(ls2[b]).contains(x) by {
                    assert(w.contains_key(x));
                    let b = choose|b: int| 0 <= b < ls.len() && ids_of(ls[b]).contains(x);
                    let v = choose|v: int| 0 <= v < ids_of(ls[b]).len() && ids_of(ls[b])[v] == x;
                    if b == a {
                        assert(v != t);
                        let u = if v < t { v } else { v - 1 };
                        assert(ids_of(ls2[b])[u] == x);
                    } else {
                        assert(ls2[b] == ls[b]);
                    }
                }
                assert(listeners_agree(ls2, w2));
            }
        } else {
            proof {
                let ls2 = self.listeners@;
                assert(ls2 =~= ls.remove(a as int));
                assert(ids_of(old_l).len() == 1);
                assert forall|b: int| 0 <= b < ls2.len() implies ids_of(#[trigger] ls2[b]).len() > 0
                    && ids_of(ls2[b]).no_duplicates() by {
                    let c = if b < a { b } else { b + 1 };
                    assert(ls2[b] == ls[c]);
                }
                assert forall|b: int, u: int|
                    0 <= b < ls2.len() && 0 <= u < ids_of(ls2[b]).len() implies w2.contains_key(
                        #[trigger] ids_of(ls2[b])[u],
                    ) && w2[ids_of(ls2[b])[u]] == ls2[b].key@ by {
                    let c = if b < a { b } else { b + 1 };
                    assert(ls2[b] == ls[c]);
                    assert(w.contains_key(ids_of(ls[c])[u]));
                    assert(ids_of(ls[c])[u] != id) by {
                        if ids_of(ls[c])[u] == id {
                            assert(w[id] == ls[c].key@);
                        }
                    }
                }
                assert forall|x: u128| #[trigger] w2.contains_key(x) implies exists|b: int|
                    0 <= b < ls2.len() && ids_of(ls2[b]).contains(x) by {
                    assert(w.contains_key(x));
                    let c = choose|c: int| 0 <= c < ls.len() && ids_of(ls[c]).contains(x);
                    let v = choose|v: int| 0 <= v < ids_of(ls[c]).len() && ids_of(ls[c])[v] == x;
                    if c == a {
                        assert(ids_of(old_l)[0] == id);
                    }
                    let b = if c < a { c } else { c - 1 };
                    assert(ls2[b] == ls[c]);
                }
                assert forall|b1: int, b2: int|
                    0 <= b1 < ls2.len() && 0 <= b2 < ls2.len() && b1 != b2 implies ls2[b1].key@
                    != ls2[b2].key@ by {
                    let c1 = if b1 < a { b1 } else { b1 + 1 };
                    let c2 = if b2 < a { b2 } else { b2 + 1 };
                    assert(ls2[b1] == ls[c1] && ls2[b2] == ls[c2]);
                }
                assert(listeners_agree(ls2, w2));
            }
        }
    }

    /// Signals the notifier of every watch on `key` and returns their
    /// identifiers.
    pub fn notify_key(&self, key: &String) -> (r: Vec<u128>)
        requires
            self.wf(),
        ensures
            notified_exactly(r@, self@, key@),
    {
        let ghost w = self@;
        let ghost ls = self.listeners@;
        let a = match self.find_listener(key) {
            Some(a) => a,
            None => {
                proof {
                    assert forall|id: u128| w.contains_key(id) && w[id] == key@ implies Seq::<u128>::empty().contains(id) by {
                        let b = choose|b: int| 0 <= b < ls.len() && ids_of(ls[b]).contains(id);
                        let t = choose|t: int| 0 <= t < ids_of(ls[b]).len() && ids_of(ls[b])[t] == id;
                        assert(w[ids_of(ls[b])[t]] == ls[b].key@);
                    }
                }
                return Vec::new();
            },
        };
        let l = &self.listeners[a];
        let mut out: Vec<u128> = Vec::new();
        let mut t: usize = 0;
        while t < l.watchers.len()
            invariant
                t <= l.watchers.len(),
                *l == ls[a as int],
                out@ == ids_of(*l).subrange(0, t as int),
            decreases l.watchers.len() - t,
        {
            l.watchers[t].1.notify_one();
            out.push(l.watchers[t].0);
            t += 1;
            proof {
                assert(out@ =~= ids_of(*l).subrange(0, t as int));
            }
        }
        proof {
            assert(out@ =~= ids_of(ls[a as int]));
            assert forall|id: u128| w.contains_key(id) && w[id] == key@ implies out@.contains(id) by {
                let b = choose|b: int| 0 <= b < ls.len() && ids_of(ls[b]).contains(id);
                let v = choose|v: int| 0 <= v < ids_of(ls[b]).len() && ids_of(ls[b])[v] == id;
                assert(w[ids_of(ls[b])[v]] == ls[b].key@);
                assert(b == a);
                assert(out@[v] == id);
            }
            assert forall|j: int| 0 <= j < out@.len() implies w.contains_key(#[trigger] out@[j]) && w[out@[j]]
                == key@ by {
                assert(out@[j] == ids_of(ls[a as int])[j]);
            }
        }
        out
    }
}

} // verus!
