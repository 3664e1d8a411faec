//! Flat maps from dotted keys to leaf values, and the codec between nested
//! documents and flat maps.
//!
//! A document `{ profile = { default = "work" } }` flattens to the single
//! entry `"profile.default" => "work"`. Turning a flat map back into a
//! document rebuilds the nested tables from the dotted keys, and fails where a
//! leaf and a table claim the same place.

use vstd::prelude::*;
use crate::error::ConfigError;
use crate::value::{ConfigValue, Json, view_entries, lemma_view_entries};

verus! {

broadcast use {
    vstd::std_specs::vec::axiom_vec_index_decreases,
    vstd::seq::axiom_seq_index_decreases,
    vstd::seq::axiom_seq_subrange_decreases,
};

/// The dotted key of a path of segments: the segments joined by `.`.
pub open spec fn join_path(segs: Seq<Seq<char>>) -> Seq<char>
    decreases segs.len(),
{
    if segs.len() == 0 {
        Seq::empty()
    } else if segs.len() == 1 {
        segs[0]
    } else {
        join_path(segs.drop_last()) + seq!['.'] + segs.last()
    }
}

/// The segments of a dotted key: the pieces between the dots. A key without
/// dots is one segment; the empty key is one empty segment.
pub open spec fn split_key(k: Seq<char>) -> Seq<Seq<char>>
    decreases k.len(),
{
    if k.len() == 0 {
        seq![Seq::empty()]
    } else {
        let rest = split_key(k.drop_last());
        if k.last() == '.' {
            rest.push(Seq::empty())
        } else {
            rest.update(rest.len() - 1, rest.last().push(k.last()))
        }
    }
}

/// The position of the last entry with key `k`, or -1.
pub open spec fn index_of<V>(m: Seq<(Seq<char>, V)>, k: Seq<char>) -> int
    decreases m.len(),
{
    if m.len() == 0 {
        -1
    } else if m.last().0 == k {
        m.len() - 1
    } else {
        index_of(m.drop_last(), k)
    }
}

/// No two entries share a key.
pub open spec fn unique_keys<V>(m: Seq<(Seq<char>, V)>) -> bool {
    forall|i: int, j: int| 0 <= i < m.len() && 0 <= j < m.len() && i != j ==> m[i].0 != m[j].0
}

/// Some entry has key `k`.
pub open spec fn has_key<V>(m: Seq<(Seq<char>, V)>, k: Seq<char>) -> bool {
    exists|i: int| 0 <= i < m.len() && m[i].0 == k
}

/// The value stored under `k`, if any.
pub open spec fn flat_get(m: Seq<(Seq<char>, Json)>, k: Seq<char>) -> Option<Json> {
    let i = index_of(m, k);
    if i >= 0 {
        Some(m[i].1)
    } else {
        None
    }
}

/// Stores `v` under `k`: in place where `k` is present, else at the end.
pub open spec fn flat_insert(m: Seq<(Seq<char>, Json)>, k: Seq<char>, v: Json) -> Seq<
    (Seq<char>, Json),
> {
    let i = index_of(m, k);
    if i >= 0 {
        m.update(i, (k, v))
    } else {
        m.push((k, v))
    }
}

/// Removes the entry under `k`, if any, keeping the order of the others.
pub open spec fn flat_remove(m: Seq<(Seq<char>, Json)>, k: Seq<char>) -> Seq<(Seq<char>, Json)> {
    let i = index_of(m, k);
    if i >= 0 {
        m.remove(i)
    } else {
        m
    }
}

/// Flattens the entries `es` of a table found at `path`, adding the leaves to `m`
/// in order. Nested tables are walked in place; every other value is a leaf.
pub open spec fn flatten_entries(
    m: Seq<(Seq<char>, Json)>,
    path: Seq<Seq<char>>,
    es: Seq<(Seq<char>, Json)>,
) -> Seq<(Seq<char>, Json)>
    decreases es,
{
    if es.len() == 0 {
        m
    } else {
        let prev = flatten_entries(m, path, es.drop_last());
        let k = es.last().0;
        let v = es.last().1;
        match v {
            Json::Object(inner) => flatten_entries(prev, path.push(k), inner),
            _ => flat_insert(prev, join_path(path.push(k)), v),
        }
    }
}

/// The flat map of a document. A document that is not a table is one leaf
/// under the empty key.
pub open spec fn flatten(d: Json) -> Seq<(Seq<char>, Json)> {
    match d {
        Json::Object(es) => flatten_entries(Seq::empty(), Seq::empty(), es),
        _ => flat_insert(Seq::empty(), Seq::empty(), d),
    }
}

/// The empty table.
pub open spec fn empty_table() -> Json {
    Json::Object(Seq::empty())
}

/// Places `v` at the path `segs` below `root`, creating the missing tables on
/// the way. Fails where the path runs through a value that is not a table, or
/// ends at anything but an empty table.
pub open spec fn insert_path(root: Json, segs: Seq<Seq<char>>, v: Json) -> Option<Json>
    decreases segs.len(),
{
    if segs.len() == 0 {
        if root == empty_table() {
            Some(v)
        } else {
            None
        }
    } else {
        match root {
            Json::Object(es) => {
                let i = index_of(es, segs[0]);
                let child = if i >= 0 {
                    es[i].1
                } else {
                    empty_table()
                };
                match insert_path(child, segs.drop_first(), v) {
                    Some(c) => Some(
                        Json::Object(
                            if i >= 0 {
                                es.update(i, (segs[0], c))
                            } else {
                                es.push((segs[0], c))
                            },
                        ),
                    ),
                    None => None,
                }
            },
            _ => None,
        }
    }
}

/// The document rebuilt from a flat map, placing the entries in order into an
/// empty table; or the first key whose placement failed.
pub open spec fn unflatten(m: Seq<(Seq<char>, Json)>) -> Result<Json, Seq<char>>
    decreases m.len(),
{
    if m.len() == 0 {
        Ok(empty_table())
    } else {
        match unflatten(m.drop_last()) {
            Ok(root) => match insert_path(root, split_key(m.last().0), m.last().1) {
                Some(r) => Ok(r),
                None => Err(m.last().0),
            },
            Err(k) => Err(k),
        }
    }
}

/// The contents of a list of strings.
pub open spec fn strings_view(v: Seq<String>) -> Seq<Seq<char>> {
    v.map_values(|s: String| s@)
}

/// `index_of` finds the entry under `k` exactly when there is one.
pub proof fn lemma_index_of<V>(m: Seq<(Seq<char>, V)>, k: Seq<char>)
    ensures
        -1 <= index_of(m, k) < m.len(),
        index_of(m, k) >= 0 ==> m[index_of(m, k)].0 == k,
        index_of(m, k) == -1 <==> !has_key(m, k),
        unique_keys(m) ==> forall|i: int|
            0 <= i < m.len() && m[i].0 == k ==> index_of(m, k) == i,
    decreases m.len(),
{
    if m.len() > 0 {
        lemma_index_of(m.drop_last(), k);
        if m.last().0 != k {
            if has_key(m, k) {
                let i = choose|i: int| 0 <= i < m.len() && m[i].0 == k;
                assert(m.drop_last()[i].0 == k);
            }
        }
        if has_key(m.drop_last(), k) {
            let i = choose|i: int| 0 <= i < m.drop_last().len() && m.drop_last()[i].0 == k;
            assert(m[i].0 == k);
        }
        if unique_keys(m) {
            assert forall|i: int| 0 <= i < m.len() - 1 && m.drop_last()[i].0 == k implies m[i].0 == k by {}
            assert(unique_keys(m.drop_last()));
        }
    }
}

/// Storing under a key keeps keys unique, and makes the key map to the value.
pub proof fn lemma_flat_insert(m: Seq<(Seq<char>, Json)>, k: Seq<char>, v: Json)
    requires
        unique_keys(m),
    ensures
        unique_keys(flat_insert(m, k, v)),
        flat_get(flat_insert(m, k, v), k) == Some(v),
        forall|k2: Seq<char>| k2 != k ==> flat_get(flat_insert(m, k, v), k2) == flat_get(m, k2),
{
    lemma_index_of(m, k);
    let r = flat_insert(m, k, v);
    assert(unique_keys(r));
    lemma_index_of(r, k);
    if index_of(m, k) >= 0 {
        assert(r[index_of(m, k)].0 == k);
    } else {
        assert(r[r.len() - 1].0 == k);
    }
    assert forall|k2: Seq<char>| k2 != k implies flat_get(r, k2) == flat_get(m, k2) by {
        lemma_index_of(m, k2);
        lemma_index_of(r, k2);
        if has_key(m, k2) {
            let j = index_of(m, k2);
            assert(r[j].0 == k2);
        }
        if has_key(r, k2) {
            let j = index_of(r, k2);
            assert(m[j].0 == k2);
        }
    }
}

/// Removing a key keeps keys unique, removes the key and keeps the others.
pub proof fn lemma_flat_remove(m: Seq<(Seq<char>, Json)>, k: Seq<char>)
    requires
        unique_keys(m),
    ensures
        unique_keys(flat_remove(m, k)),
        flat_get(flat_remove(m, k), k) is None,
        forall|k2: Seq<char>| k2 != k ==> flat_get(flat_remove(m, k), k2) == flat_get(m, k2),
{
    lemma_index_of(m, k);
    let r = flat_remove(m, k);
    let i = index_of(m, k);
    assert(unique_keys(r));
    lemma_index_of(r, k);
    if i >= 0 {
        assert(!has_key(r, k)) by {
            if has_key(r, k) {
                let j = choose|j: int| 0 <= j < r.len() && r[j].0 == k;
                if j < i {
                    assert(m[j].0 == k);
                } else {
                    assert(m[j + 1].0 == k);
                }
            }
        }
    }
    assert forall|k2: Seq<char>| k2 != k implies flat_get(r, k2) == flat_get(m, k2) by {
        lemma_index_of(m, k2);
        lemma_index_of(r, k2);
        if has_key(m, k2) {
            let j = index_of(m, k2);
            if i >= 0 {
                if j < i {
                    assert(r[j].0 == k2);
                } else {
                    assert(r[j - 1].0 == k2);
                }
            }
        }
        if has_key(r, k2) {
            let j = index_of(r, k2);
            if i >= 0 {
                if j < i {
                    assert(m[j].0 == k2);
                } else {
                    assert(m[j + 1].0 == k2);
                }
            }
        }
    }
}

/// No entry holds a table.
pub open spec fn leaves_only(m: Seq<(Seq<char>, Json)>) -> bool {
    forall|i: int| 0 <= i < m.len() ==> !(#[trigger] m[i].1 is Object)
}

/// Flattening adds leaves only.
pub proof fn lemma_flatten_entries_leaves(
    m: Seq<(Seq<char>, Json)>,
    path: Seq<Seq<char>>,
    es: Seq<(Seq<char>, Json)>,
)
    requires
        leaves_only(m),
    ensures
        leaves_only(flatten_entries(m, path, es)),
    decreases es,
{
    if es.len() > 0 {
        lemma_flatten_entries_leaves(m, path, es.drop_last());
        let prev = flatten_entries(m, path, es.drop_last());
        let k = es.last().0;
        let v = es.last().1;
        match v {
            Json::Object(inner) => {
                lemma_flatten_entries_leaves(prev, path.push(k), inner);
            },
            _ => {
                let key = join_path(path.push(k));
                let r = flat_insert(prev, key, v);
                lemma_index_of(prev, key);
                assert(!(v is Object));
                assert forall|i: int| 0 <= i < r.len() implies !(#[trigger] r[i].1 is Object) by {
                    if index_of(prev, key) >= 0 {
                        if i != index_of(prev, key) {
                            assert(r[i] == prev[i]);
                        }
                    } else if i < prev.len() {
                        assert(r[i] == prev[i]);
                    }
                }
            },
        }
    }
}

/// A map from dotted keys to leaf values, kept in the order in which keys
/// first arrived, each key at most once.
pub struct FlatMap {
    entries: Vec<(String, ConfigValue)>,
}

impl View for FlatMap {
    type V = Seq<(Seq<char>, Json)>;

    closed spec fn view(&self) -> Seq<(Seq<char>, Json)> {
        view_entries(self.entries@)
    }
}

impl FlatMap {
    /// Keys are unique.
    pub open spec fn wf(&self) -> bool {
        unique_keys(self@)
    }

    /// The empty map.
    pub fn new() -> (r: FlatMap)
        ensures
            r@ == Seq::<(Seq<char>, Json)>::empty(),
            r.wf(),
    {
        let r = FlatMap { entries: Vec::new() };
        proof {
            lemma_view_entries(r.entries@);
        }
        r
    }

    /// The number of entries.
    pub fn len(&self) -> (r: usize)
        ensures
            r == self@.len(),
    {
        proof {
            lemma_view_entries(self.entries@);
        }
        self.entries.len()
    }

    /// The key of the entry at position `i`.
    pub fn key_at(&self, i: usize) -> (r: &String)
        requires
            i < self@.len(),
        ensures
            r@ == self@[i as int].0,
    {
        proof {
            lemma_view_entries(self.entries@);
        }
        &self.entries[i].0
    }

    /// The value of the entry at position `i`.
    pub fn value_at(&self, i: usize) -> (r: &ConfigValue)
        requires
            i < self@.len(),
        ensures
            r@ == self@[i as int].1,
    {
        proof {
            lemma_view_entries(self.entries@);
        }
        &self.entries[i].1
    }

    /// The position of the entry under `key`.
    fn find(&self, key: &String) -> (r: Option<usize>)
        requires
            self.wf(),
        ensures
            r is None ==> index_of(self@, key@) == -1,
            r matches Some(i) ==> i == index_of(self@, key@) && i < self@.len()
                && self@[i as int].0 == key@,
    {
        proof {
            lemma_view_entries(self.entries@);
            lemma_index_of(self@, key@);
        }
        let mut i: usize = 0;
        while i < self.entries.len()
            invariant
                self.wf(),
                i <= self.entries.len(),
                self@.len() == self.entries.len(),
                forall|j: int| 0 <= j < self.entries.len() ==> self@[j].0 == (#[trigger] self.entries@[j]).0@,
                forall|j: int| 0 <= j < i ==> self@[j].0 != key@,
                -1 <= index_of(self@, key@) < self@.len(),
                index_of(self@, key@) >= 0 ==> self@[index_of(self@, key@)].0 == key@,
                index_of(self@, key@) == -1 <==> !has_key(self@, key@),
                forall|j: int| 0 <= j < self@.len() && self@[j].0 == key@ ==> index_of(self@, key@) == j,
            decreases self.entries.len() - i,
        {
            if self.entries[i].0 == *key {
                return Some(i);
            }
            i += 1;
        }
        None
    }

    /// The value stored under `key`, copied out.
    pub fn get(&self, key: &str) -> (r: Option<ConfigValue>)
        requires
            self.wf(),
        ensures
            r is None <==> flat_get(self@, key@) is None,
            r matches Some(v) ==> flat_get(self@, key@) == Some(v@),
    {
        let k = String::from_str(key);
        match self.find(&k) {
            Some(i) => {
                proof {
                    lemma_view_entries(self.entries@);
                }
                Some(self.entries[i].1.deep_clone())
            },
            None => None,
        }
    }

    /// Stores `value` under `key`, replacing the value that was there.
    pub fn insert(&mut self, key: String, value: ConfigValue)
        requires
            old(self).wf(),
        ensures
            final(self).wf(),
            final(self)@ == flat_insert(old(self)@, key@, value@),
    {
        proof {
            lemma_view_entries(self.entries@);
            lemma_flat_insert(self@, key@, value@);
        }
        let ghost before = self@;
        match self.find(&key) {
            Some(i) => {
                self.entries.set(i, (key, value));
                proof {
                    lemma_view_entries(self.entries@);
                    assert(self@ =~= flat_insert(before, key@, value@));
                }
            },
            None => {
                self.entries.push((key, value));
                proof {
                    lemma_view_entries(self.entries@);
                    assert(self@ =~= flat_insert(before, key@, value@));
                }
            },
        }
    }

    /// Removes the entry under `key`, if any.
    pub fn remove(&mut self, key: &str)
        requires
            old(self).wf(),
        ensures
            final(self).wf(),
            final(self)@ == flat_remove(old(self)@, key@),
    {
        let k = String::from_str(key);
        proof {
            lemma_view_entries(self.entries@);
            lemma_flat_remove(self@, k@);
        }
        let ghost before = self@;
        match self.find(&k) {
            Some(i) => {
                self.entries.remove(i);
                proof {
                    lemma_view_entries(self.entries@);
                    assert(self@ =~= flat_remove(before, k@));
                }
            },
            None => {},
        }
    }
}

/// The segments of a dotted key, split at every `.`.
pub fn key_segments(key: &str) -> (r: Vec<String>)
    ensures
        strings_view(r@) == split_key(key@),
{
    let n = key.unicode_len();
    let mut done: Vec<String> = Vec::new();
    let mut start: usize = 0;
    let mut i: usize = 0;
    proof {
        assert(key@.subrange(0, 0) =~= Seq::<char>::empty());
        assert(strings_view(done@).push(key@.subrange(0, 0)) =~= seq![Seq::<char>::empty()]);
    }
    while i < n
        invariant
            start <= i <= n,
            n == key@.len(),
            split_key(key@.subrange(0, i as int)) == strings_view(done@).push(
                key@.subrange(start as int, i as int),
            ),
        decreases n - i,
    {
        let c = key.get_char(i);
        let ghost before = strings_view(done@);
        let ghost seg_before = key@.subrange(start as int, i as int);
        if c == '.' {
            let seg = key.substring_char(start, i);
            done.push(String::from_str(seg));
            start = i + 1;
        }
        i += 1;
        proof {
            let p = key@.subrange(0, i as int);
            assert(p.drop_last() =~= key@.subrange(0, i - 1));
            assert(p.last() == c);
            if c == '.' {
                assert(strings_view(done@) =~= before.push(seg_before));
                assert(key@.subrange(start as int, i as int) =~= Seq::<char>::empty());
            } else {
                assert(key@.subrange(start as int, i as int) =~= seg_before.push(c));
                assert(split_key(p) =~= strings_view(done@).push(
                    key@.subrange(start as int, i as int),
                ));
            }
        }
    }
    let seg = key.substring_char(start, n);
    let ghost before = strings_view(done@);
    done.push(String::from_str(seg));
    proof {
        assert(key@.subrange(0, n as int) =~= key@);
        assert(strings_view(done@) =~= before.push(key@.subrange(start as int, n as int)));
    }
    done
}

/// Adds the leaves of the table entries `entries`, found at the path whose
/// dotted key is `prefix`, to `m`.
fn flatten_into(
    m: &mut FlatMap,
    prefix: &String,
    nested: bool,
    Ghost(path): Ghost<Seq<Seq<char>>>,
    entries: &Vec<(String, ConfigValue)>,
)
    requires
        old(m).wf(),
        prefix@ == join_path(path),
        nested == (path.len() > 0),
    ensures
        final(m).wf(),
        final(m)@ == flatten_entries(old(m)@, path, view_entries(entries@)),
    decreases entries,
{
    let ghost start = m@;
    let ghost es = view_entries(entries@);
    proof {
        lemma_view_entries(entries@);
        assert(es.subrange(0, 0) =~= Seq::<(Seq<char>, Json)>::empty());
    }
    let mut i: usize = 0;
    while i < entries.len()
        invariant
            m.wf(),
            i <= entries.len(),
            prefix@ == join_path(path),
            nested == (path.len() > 0),
            es == view_entries(entries@),
            es.len() == entries.len(),
            forall|j: int| 0 <= j < entries.len() ==> #[trigger] es[j] == (entries@[j].0@, entries@[j].1@),
            m@ == flatten_entries(start, path, es.subrange(0, i as int)),
        decreases entries.len() - i,
    {
        let key = &entries[i].0;
        let full = if nested {
            let dotted = prefix.clone().concat(".");
            proof {
                reveal_strlit(".");
            }
            dotted.concat(key.as_str())
        } else {
            key.clone()
        };
        proof {
            let p = path.push(key@);
            assert(p.drop_last() =~= path);
            assert(full@ == join_path(p));
        }
        let ghost mid = m@;
        match &entries[i].1 {
            ConfigValue::Object(inner) => {
                proof {
                    assert(decreases_to!(*entries => entries[i as int]));
                    assert(decreases_to!(entries[i as int] => entries[i as int].1));
                }
                flatten_into(m, &full, true, Ghost(path.push(key@)), inner);
            },
            other => {
                m.insert(full, other.deep_clone());
            },
        }
        i += 1;
        proof {
            assert(es.subrange(0, i as int).drop_last() =~= es.subrange(0, i - 1));
            assert(es.subrange(0, i as int).last() == es[i - 1]);
        }
    }
    proof {
        assert(es.subrange(0, entries.len() as int) =~= es);
    }
}

/// Flattens a document into a map from dotted keys to leaves: a table's entries
/// are walked with `.`-joined keys, and every value that is not a table is a
/// leaf. A document that is not a table is one leaf under the empty key.
pub fn deserialize(value: &ConfigValue) -> (r: FlatMap)
    ensures
        r.wf(),
        r@ == flatten(value@),
        leaves_only(r@),
{
    proof {
        if let Json::Object(es) = value@ {
            lemma_flatten_entries_leaves(Seq::empty(), Seq::empty(), es);
        } else {
            let r = flat_insert(Seq::empty(), Seq::empty(), value@);
            assert(r =~= seq![(Seq::<char>::empty(), value@)]);
        }
    }
    let mut m = FlatMap::new();
    match value {
        ConfigValue::Object(entries) => {
            let root = String::new();
            flatten_into(&mut m, &root, false, Ghost(Seq::empty()), entries);
        },
        _ => {
            m.insert(String::new(), value.deep_clone());
        },
    }
    m
}

/// The position of the last entry under `key` in a list of table entries.
fn find_last(es: &Vec<(String, ConfigValue)>, key: &String) -> (r: Option<usize>)
    ensures
        r is None ==> index_of(view_entries(es@), key@) == -1,
        r matches Some(i) ==> i == index_of(view_entries(es@), key@) && i < es.len(),
{
    let ghost v = view_entries(es@);
    proof {
        lemma_view_entries(es@);
        assert(v.subrange(0, es.len() as int) =~= v);
    }
    let mut i: usize = es.len();
    while i > 0
        invariant
            i <= es.len(),
            v == view_entries(es@),
            v.len() == es.len(),
            forall|j: int| 0 <= j < es.len() ==> #[trigger] v[j] == (es@[j].0@, es@[j].1@),
            index_of(v, key@) == index_of(v.subrange(0, i as int), key@),
        decreases i,
    {
        if es[i - 1].0 == *key {
            return Some(i - 1);
        }
        proof {
            assert(v.subrange(0, i as int).drop_last() =~= v.subrange(0, i - 1));
        }
        i -= 1;
    }
    None
}

/// Places `value` below `root` at the segments `segs` from position `from` on.
fn place(root: ConfigValue, segs: &Vec<String>, from: usize, value: ConfigValue) -> (r: Option<
    ConfigValue,
>)
    requires
        from <= segs.len(),
    ensures
        r is None <==> insert_path(
            root@,
            strings_view(segs@).subrange(from as int, segs.len() as int),
            value@,
        ) is None,
        r matches Some(x) ==> insert_path(
            root@,
            strings_view(segs@).subrange(from as int, segs.len() as int),
            value@,
        ) == Some(x@),
    decreases segs.len() - from,
{
    let ghost rest = strings_view(segs@).subrange(from as int, segs.len() as int);
    if from == segs.len() {
        match root {
            ConfigValue::Object(es) => {
                proof {
                    lemma_view_entries(es@);
                    if es.len() == 0 {
                        assert(view_entries(es@) =~= Seq::<(Seq<char>, Json)>::empty());
                    }
                }
                if es.len() == 0 {
                    Some(value)
                } else {
                    None
                }
            },
            _ => None,
        }
    } else {
        proof {
            assert(rest[0] == segs@[from as int]@);
            assert(rest.drop_first() =~= strings_view(segs@).subrange(
                from + 1,
                segs.len() as int,
            ));
        }
        match root {
            ConfigValue::Object(mut es) => {
                let ghost old_es = view_entries(es@);
                proof {
                    lemma_view_entries(es@);
                }
                match find_last(&es, &segs[from]) {
                    Some(i) => {
                        proof {
                            lemma_index_of(old_es, rest[0]);
                        }
                        let (k, child) = es.remove(i);
                        match place(child, segs, from + 1, value) {
                            Some(c) => {
                                let ghost c_view = c@;
                                es.insert(i, (k, c));
                                proof {
                                    lemma_view_entries(es@);
                                    assert(view_entries(es@) =~= old_es.update(
                                        i as int,
                                        (rest[0], c_view),
                                    ));
                                }
                                Some(ConfigValue::Object(es))
                            },
                            None => None,
                        }
                    },
                    None => {
                        let fresh = ConfigValue::Object(Vec::new());
                        proof {
                            lemma_view_entries(Seq::<(String, ConfigValue)>::empty());
                            assert(fresh@ == empty_table());
                        }
                        match place(fresh, segs, from + 1, value) {
                            Some(c) => {
                                let ghost c_view = c@;
                                let k = segs[from].clone();
                                es.push((k, c));
                                proof {
                                    lemma_view_entries(es@);
                                    assert(view_entries(es@) =~= old_es.push((rest[0], c_view)));
                                }
                                Some(ConfigValue::Object(es))
                            },
                            None => None,
                        }
                    },
                }
            },
            _ => None,
        }
    }
}

/// Once placing the entries of a prefix has failed, placing all of them fails
/// with the same key.
proof fn lemma_unflatten_err_prefix(m: Seq<(Seq<char>, Json)>, j: int)
    requires
        0 <= j <= m.len(),
        unflatten(m.subrange(0, j)) is Err,
    ensures
        unflatten(m) == unflatten(m.subrange(0, j)),
    decreases m.len() - j,
{
    if j < m.len() {
        let p = m.subrange(0, j + 1);
        assert(p.drop_last() =~= m.subrange(0, j));
        lemma_unflatten_err_prefix(m, j + 1);
    } else {
        assert(m.subrange(0, j) =~= m);
    }
}

/// Rebuilds a document from a flat map: the entries are placed in order into
/// an empty table, each at the path of its dotted key. Fails with the first key
/// whose path runs through a leaf, or ends at a table that already holds
/// entries.
pub fn serialize(m: &FlatMap) -> (r: Result<ConfigValue, ConfigError>)
    requires
        m.wf(),
    ensures
        r matches Ok(d) ==> unflatten(m@) == Ok::<Json, Seq<char>>(d@),
        r matches Err(e) ==> e matches ConfigError::Conflict(k) && unflatten(m@) == Err::<Json, Seq<char>>(k@),
{
    let mut root = ConfigValue::Object(Vec::new());
    proof {
        lemma_view_entries(Seq::<(String, ConfigValue)>::empty());
        assert(m@.subrange(0, 0) =~= Seq::<(Seq<char>, Json)>::empty());
    }
    let n = m.len();
    let mut i: usize = 0;
    while i < n
        invariant
            i <= n,
            n == m@.len(),
            m.wf(),
            unflatten(m@.subrange(0, i as int)) == Ok::<Json, Seq<char>>(root@),
        decreases n - i,
    {
        let key = m.key_at(i);
        let segs = key_segments(key.as_str());
        let value = m.value_at(i).deep_clone();
        proof {
            let p = m@.subrange(0, i + 1);
            assert(p.drop_last() =~= m@.subrange(0, i as int));
            assert(p.last() == m@[i as int]);
            assert(strings_view(segs@).subrange(0, segs.len() as int) =~= strings_view(segs@));
        }
        match place(root, &segs, 0, value) {
            Some(r) => {
                root = r;
            },
            None => {
                proof {
                    lemma_unflatten_err_prefix(m@, i + 1);
                }
                return Err(ConfigError::Conflict(key.clone()));
            },
        }
        i += 1;
    }
    proof {
        assert(m@.subrange(0, n as int) =~= m@);
    }
    Ok(root)
}

/// The part of `root` found at the path `segs`, if the path leads anywhere.
pub open spec fn at(root: Json, segs: Seq<Seq<char>>) -> Option<Json>
    decreases segs.len(),
{
    if segs.len() == 0 {
        Some(root)
    } else {
        match root {
            Json::Object(es) => {
                let i = index_of(es, segs[0]);
                if i >= 0 {
                    at(es[i].1, segs.drop_first())
                } else {
                    None
                }
            },
            _ => None,
        }
    }
}

/// `p` is a prefix of `q`.
pub open spec fn is_prefix(p: Seq<Seq<char>>, q: Seq<Seq<char>>) -> bool {
    p.len() <= q.len() && q.subrange(0, p.len() as int) == p
}

/// A value that is not a table.
pub open spec fn is_leaf(v: Json) -> bool {
    !(v is Object)
}

/// A table with at least one entry.
pub open spec fn is_filled_table(v: Json) -> bool {
    v is Object && v->Object_0.len() > 0
}

/// What is found at `p` in `r`: exactly the leaf `x` (when `leaf`), or a
/// table with entries.
pub open spec fn found(r: Json, p: Seq<Seq<char>>, leaf: bool, x: Json) -> bool {
    match at(r, p) {
        Some(y) => if leaf {
            y == x
        } else {
            is_filled_table(y)
        },
        None => false,
    }
}

/// `index_of` looks at the keys only.
proof fn lemma_index_of_keys<V>(s1: Seq<(Seq<char>, V)>, s2: Seq<(Seq<char>, V)>, k: Seq<char>)
    requires
        s1.len() == s2.len(),
        forall|j: int| 0 <= j < s1.len() ==> #[trigger] s1[j].0 == s2[j].0,
    ensures
        index_of(s1, k) == index_of(s2, k),
    decreases s1.len(),
{
    if s1.len() > 0 {
        lemma_index_of_keys(s1.drop_last(), s2.drop_last(), k);
    }
}

/// The entry pushed last is found by its key; other keys keep their place.
proof fn lemma_index_of_push<V>(s: Seq<(Seq<char>, V)>, x: (Seq<char>, V), k: Seq<char>)
    ensures
        index_of(s.push(x), k) == if x.0 == k {
            s.len() as int
        } else {
            index_of(s, k)
        },
{
    assert(s.push(x).drop_last() =~= s);
}

/// Placing a value leaves what stands at `p` in place: a leaf stays the same
/// leaf, a table with entries stays a table with entries. A leaf at `p` blocks
/// every path through or to `p`, and a table with entries blocks `p` itself.
proof fn lemma_insert_keeps(root: Json, p: Seq<Seq<char>>, leaf: bool, x: Json, q: Seq<Seq<char>>, v: Json)
    requires
        found(root, p, leaf, x),
        leaf ==> is_leaf(x),
    ensures
        insert_path(root, q, v) matches Some(r) ==> found(r, p, leaf, x),
        leaf && is_prefix(p, q) ==> insert_path(root, q, v) is None,
        !leaf && p == q ==> insert_path(root, q, v) is None,
    decreases p.len(),
{
    if p.len() == 0 {
        assert(at(root, p) == Some(root));
        if q.len() > 0 {
            if let Json::Object(es) = root {
                if let Some(c) = insert_path(es[0].1, seq![], v) {
                }
                let i = index_of(es, q[0]);
                lemma_index_of(es, q[0]);
                if let Some(r) = insert_path(root, q, v) {
                    assert(at(r, p) == Some(r));
                }
            }
        }
    } else {
        let es = root->Object_0;
        let i = index_of(es, p[0]);
        lemma_index_of(es, p[0]);
        assert(at(root, p) == at(es[i].1, p.drop_first()));
        if q.len() > 0 {
            let iq = index_of(es, q[0]);
            lemma_index_of(es, q[0]);
            let child = if iq >= 0 {
                es[iq].1
            } else {
                empty_table()
            };
            if q[0] == p[0] {
                assert(iq == i);
                lemma_insert_keeps(es[i].1, p.drop_first(), leaf, x, q.drop_first(), v);
                if leaf && is_prefix(p, q) {
                    assert(q.drop_first().subrange(0, p.drop_first().len() as int) =~= p.drop_first());
                }
                if !leaf && p == q {
                    assert(p.drop_first() == q.drop_first());
                }
                if let Some(c) = insert_path(child, q.drop_first(), v) {
                    let es2 = es.update(i, (q[0], c));
                    lemma_index_of_keys(es2, es, p[0]);
                    assert(es2[i].1 == c);
                }
            } else {
                if let Some(c) = insert_path(child, q.drop_first(), v) {
                    if iq >= 0 {
                        let es2 = es.update(iq, (q[0], c));
                        lemma_index_of_keys(es2, es, p[0]);
                        assert(es2[i] == es[i]);
                    } else {
                        let es2 = es.push((q[0], c));
                        lemma_index_of_push(es, (q[0], c), p[0]);
                        assert(es2[i] == es[i]);
                    }
                }
                if leaf && is_prefix(p, q) {
                    assert(q.subrange(0, p.len() as int)[0] == q[0]);
                }
            }
        } else {
            assert(root != empty_table()) by {
                assert(es.len() > 0);
            }
        }
    }
}

/// After placing `v` at `q`, `v` stands at `q` and a table with entries at
/// every proper prefix of `q`.
proof fn lemma_insert_places(root: Json, q: Seq<Seq<char>>, v: Json, p: Seq<Seq<char>>)
    requires
        insert_path(root, q, v) is Some,
        is_prefix(p, q),
    ensures
        p == q ==> at(insert_path(root, q, v)->Some_0, q) == Some(v),
        p.len() < q.len() ==> found(insert_path(root, q, v)->Some_0, p, false, v),
    decreases q.len(),
{
    let r = insert_path(root, q, v)->Some_0;
    if q.len() > 0 {
        let es = root->Object_0;
        let iq = index_of(es, q[0]);
        lemma_index_of(es, q[0]);
        let child = if iq >= 0 {
            es[iq].1
        } else {
            empty_table()
        };
        let c = insert_path(child, q.drop_first(), v)->Some_0;
        let es2 = if iq >= 0 {
            es.update(iq, (q[0], c))
        } else {
            es.push((q[0], c))
        };
        assert(r == Json::Object(es2));
        let j = if iq >= 0 {
            iq
        } else {
            es.len() as int
        };
        if iq >= 0 {
            lemma_index_of_keys(es2, es, q[0]);
        } else {
            lemma_index_of_push(es, (q[0], c), q[0]);
        }
        assert(index_of(es2, q[0]) == j);
        assert(es2[j].1 == c);
        if p.len() > 0 {
            assert(p[0] == q.subrange(0, p.len() as int)[0]);
            assert(q.drop_first().subrange(0, p.drop_first().len() as int) =~= p.drop_first());
            lemma_insert_places(child, q.drop_first(), v, p.drop_first());
            if p == q {
                assert(p.drop_first() == q.drop_first());
            }
        } else {
            assert(es2.len() > 0);
        }
    } else {
        assert(p =~= q);
    }
}

/// What stands at `p` after the first `a` entries are placed stays there while
/// later entries are placed.
proof fn lemma_unflatten_keeps(m: Seq<(Seq<char>, Json)>, a: int, b: int, p: Seq<Seq<char>>, leaf: bool, x: Json)
    requires
        0 <= a <= b <= m.len(),
        unflatten(m.subrange(0, a)) is Ok,
        found(unflatten(m.subrange(0, a))->Ok_0, p, leaf, x),
        leaf ==> is_leaf(x),
    ensures
        unflatten(m.subrange(0, b)) is Ok ==> found(unflatten(m.subrange(0, b))->Ok_0, p, leaf, x),
    decreases b - a,
{
    if a < b {
        lemma_unflatten_keeps(m, a, b - 1, p, leaf, x);
        let prev = m.subrange(0, b - 1);
        let cur = m.subrange(0, b);
        assert(cur.drop_last() =~= prev);
        if unflatten(prev) is Ok {
            lemma_insert_keeps(
                unflatten(prev)->Ok_0,
                p,
                leaf,
                x,
                split_key(cur.last().0),
                cur.last().1,
            );
        }
    }
}

/// Placing the entries up to and including position `i` puts what stands at
/// every proper prefix of its path: a table with entries.
proof fn lemma_unflatten_step(m: Seq<(Seq<char>, Json)>, i: int, p: Seq<Seq<char>>)
    requires
        0 <= i < m.len(),
        unflatten(m.subrange(0, i + 1)) is Ok,
        is_prefix(p, split_key(m[i].0)),
    ensures
        p == split_key(m[i].0) ==> at(unflatten(m.subrange(0, i + 1))->Ok_0, p) == Some(m[i].1),
        p.len() < split_key(m[i].0).len() ==> found(unflatten(m.subrange(0, i + 1))->Ok_0, p, false, m[i].1),
{
    let cur = m.subrange(0, i + 1);
    assert(cur.drop_last() =~= m.subrange(0, i));
    assert(cur.last() == m[i]);
    lemma_insert_places(unflatten(m.subrange(0, i))->Ok_0, split_key(m[i].0), m[i].1, p);
}

/// A flat map in which one key's path runs through another key's leaf value
/// cannot be turned back into a document: the conflict is reported, whichever
/// of the two keys comes first.
pub proof fn lemma_conflict_fails(m: Seq<(Seq<char>, Json)>, i: int, j: int)
    requires
        0 <= i < m.len(),
        0 <= j < m.len(),
        is_leaf(m[i].1),
        is_prefix(split_key(m[i].0), split_key(m[j].0)),
        split_key(m[i].0).len() < split_key(m[j].0).len(),
    ensures
        unflatten(m) is Err,
{
    let pi = split_key(m[i].0);
    let pj = split_key(m[j].0);
    assert(pi.subrange(0, pi.len() as int) =~= pi);
    let last = if i < j {
        j
    } else {
        i
    };
    if unflatten(m.subrange(0, last + 1)) is Ok {
        let cur = m.subrange(0, last + 1);
        assert(cur.drop_last() =~= m.subrange(0, last));
        assert(cur.last() == m[last]);
        if i < j {
            assert(unflatten(m.subrange(0, i + 1)) is Ok) by {
                if unflatten(m.subrange(0, i + 1)) is Err {
                    assert(cur.subrange(0, i + 1) =~= m.subrange(0, i + 1));
                    lemma_unflatten_err_prefix(cur, i + 1);
                }
            }
            lemma_unflatten_step(m, i, pi);
            lemma_unflatten_keeps(m, i + 1, j, pi, true, m[i].1);
            lemma_insert_keeps(unflatten(m.subrange(0, j))->Ok_0, pi, true, m[i].1, pj, m[j].1);
        } else {
            assert(unflatten(m.subrange(0, j + 1)) is Ok) by {
                if unflatten(m.subrange(0, j + 1)) is Err {
                    assert(cur.subrange(0, j + 1) =~= m.subrange(0, j + 1));
                    lemma_unflatten_err_prefix(cur, j + 1);
                }
            }
            lemma_unflatten_step(m, j, pi);
            lemma_unflatten_keeps(m, j + 1, i, pi, false, m[j].1);
            lemma_insert_keeps(unflatten(m.subrange(0, i))->Ok_0, pi, false, m[j].1, pi, m[i].1);
        }
    }
    lemma_unflatten_err_prefix(m, last + 1);
}

} // verus!
