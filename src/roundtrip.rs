//! Flattening a document and rebuilding it gives the document back, for every
//! document whose flat keys cannot collide.

use vstd::prelude::*;
use crate::flat::{
    empty_table, flat_insert, flatten, flatten_entries, has_key, index_of, insert_path, join_path,
    lemma_index_of, split_key, unflatten,
};
use crate::value::Json;

verus! {

broadcast use {
    vstd::seq::axiom_seq_index_decreases,
    vstd::seq::axiom_seq_subrange_decreases,
};

/// The text holds no `.`.
pub open spec fn no_dot(s: Seq<char>) -> bool {
    forall|i: int| 0 <= i < s.len() ==> s[i] != '.'
}

/// Every segment of a path holds no `.`.
pub open spec fn segments_ok(p: Seq<Seq<char>>) -> bool {
    forall|i: int| 0 <= i < p.len() ==> no_dot(#[trigger] p[i])
}

/// Table entries whose flat keys cannot collide: keys are unique and hold no
/// `.`, and every nested table has entries and is such a table itself.
pub open spec fn entries_ok(es: Seq<(Seq<char>, Json)>) -> bool
    decreases es,
{
    if es.len() == 0 {
        true
    } else {
        &&& entries_ok(es.drop_last())
        &&& no_dot(es.last().0)
        &&& !has_key(es.drop_last(), es.last().0)
        &&& match es.last().1 {
            Json::Object(inner) => inner.len() > 0 && entries_ok(inner),
            _ => true,
        }
    }
}

/// Every path of `ps` with the segment `k` put in front.
pub open spec fn prefix_all(k: Seq<char>, ps: Seq<(Seq<Seq<char>>, Json)>) -> Seq<(Seq<Seq<char>>, Json)> {
    ps.map_values(|e: (Seq<Seq<char>>, Json)| (seq![k] + e.0, e.1))
}

/// The leaves of table entries with their paths relative to the table, in the
/// order in which flattening meets them.
pub open spec fn leaf_paths(es: Seq<(Seq<char>, Json)>) -> Seq<(Seq<Seq<char>>, Json)>
    decreases es,
{
    if es.len() == 0 {
        Seq::empty()
    } else {
        let prev = leaf_paths(es.drop_last());
        let k = es.last().0;
        match es.last().1 {
            Json::Object(inner) => prev + prefix_all(k, leaf_paths(inner)),
            v => prev.push((seq![k], v)),
        }
    }
}

/// Places the values of `ps` at their paths below `root`, in order.
pub open spec fn build(root: Json, ps: Seq<(Seq<Seq<char>>, Json)>) -> Option<Json>
    decreases ps.len(),
{
    if ps.len() == 0 {
        Some(root)
    } else {
        match build(root, ps.drop_last()) {
            Some(r) => insert_path(r, ps.last().0, ps.last().1),
            None => None,
        }
    }
}

/// The flat entries for the leaf paths `ps` found below `path`.
pub open spec fn keyed(path: Seq<Seq<char>>, ps: Seq<(Seq<Seq<char>>, Json)>) -> Seq<(Seq<char>, Json)> {
    ps.map_values(|e: (Seq<Seq<char>>, Json)| (join_path(path + e.0), e.1))
}

/// A key always has at least one segment.
proof fn lemma_split_len(k: Seq<char>)
    ensures
        split_key(k).len() >= 1,
    decreases k.len(),
{
    if k.len() > 0 {
        lemma_split_len(k.drop_last());
    }
}

/// Appending text without dots extends the last segment.
proof fn lemma_split_append(x: Seq<char>, y: Seq<char>)
    requires
        no_dot(y),
    ensures
        split_key(x + y) == split_key(x).update(
            split_key(x).len() - 1,
            split_key(x).last() + y,
        ),
    decreases y.len(),
{
    lemma_split_len(x);
    if y.len() == 0 {
        assert(x + y =~= x);
        assert(split_key(x).last() + y =~= split_key(x).last());
        assert(split_key(x).update(split_key(x).len() - 1, split_key(x).last()) =~= split_key(x));
    } else {
        let y2 = y.drop_last();
        let c = y.last();
        assert(no_dot(y2));
        lemma_split_append(x, y2);
        assert((x + y).drop_last() =~= x + y2);
        assert((x + y).last() == c);
        lemma_split_len(x + y2);
        let s = split_key(x);
        assert(split_key(x + y) =~= s.update(s.len() - 1, s.last() + y)) by {
            assert((s.last() + y2).push(c) =~= s.last() + y);
        }
    }
}

/// Splitting a joined path of segments without dots gives the path back.
pub proof fn lemma_split_join(p: Seq<Seq<char>>)
    requires
        p.len() >= 1,
        segments_ok(p),
    ensures
        split_key(join_path(p)) == p,
    decreases p.len(),
{
    if p.len() == 1 {
        assert(no_dot(p[0]));
        lemma_split_append(Seq::empty(), p[0]);
        assert(Seq::<char>::empty() + p[0] =~= p[0]);
        assert(seq![Seq::<char>::empty()].update(0, Seq::<char>::empty() + p[0]) =~= p);
    } else {
        let a = p.drop_last();
        assert(segments_ok(a)) by {
            assert forall|i: int| 0 <= i < a.len() implies no_dot(#[trigger] a[i]) by {
                assert(a[i] == p[i]);
            }
        }
        lemma_split_join(a);
        let x = join_path(a) + seq!['.'];
        assert(x.drop_last() =~= join_path(a));
        assert(no_dot(p.last())) by {
            assert(p.last() == p[p.len() - 1]);
        }
        lemma_split_append(x, p.last());
        assert(split_key(x) == a.push(Seq::empty()));
        assert(join_path(p) == x + p.last());
        assert(a.push(Seq::empty()).update(a.len() as int, Seq::<char>::empty() + p.last()) =~= p) by {
            assert(Seq::<char>::empty() + p.last() =~= p.last());
        }
    }
}

/// Different paths of segments without dots have different keys.
proof fn lemma_join_injective(a: Seq<Seq<char>>, b: Seq<Seq<char>>)
    requires
        a.len() >= 1,
        b.len() >= 1,
        segments_ok(a),
        segments_ok(b),
        a != b,
    ensures
        join_path(a) != join_path(b),
{
    lemma_split_join(a);
    lemma_split_join(b);
}

/// Leaf paths have at least one segment, their segments hold no dot, and the
/// first one is a key of the entries.
proof fn lemma_leaf_paths_shape(es: Seq<(Seq<char>, Json)>)
    requires
        entries_ok(es),
    ensures
        forall|j: int|
            0 <= j < leaf_paths(es).len() ==> (#[trigger] leaf_paths(es)[j]).0.len() >= 1
                && segments_ok(leaf_paths(es)[j].0) && has_key(es, leaf_paths(es)[j].0[0]),
        es.len() > 0 ==> leaf_paths(es).len() > 0,
    decreases es,
{
    if es.len() > 0 {
        let dl = es.drop_last();
        let k = es.last().0;
        lemma_leaf_paths_shape(dl);
        let prev = leaf_paths(dl);
        let all = leaf_paths(es);
        assert forall|j: int| 0 <= j < prev.len() implies has_key(es, #[trigger] prev[j].0[0]) by {
            let t = choose|t: int| 0 <= t < dl.len() && dl[t].0 == prev[j].0[0];
            assert(es[t] == dl[t]);
        }
        assert(es[es.len() - 1].0 == k);
        match es.last().1 {
            Json::Object(inner) => {
                lemma_leaf_paths_shape(inner);
                let sub = leaf_paths(inner);
                assert forall|j: int| 0 <= j < all.len() implies (#[trigger] all[j]).0.len() >= 1
                    && segments_ok(all[j].0) && has_key(es, all[j].0[0]) by {
                    if j < prev.len() {
                        assert(all[j] == prev[j]);
                    } else {
                        let t = j - prev.len();
                        assert(all[j] == prefix_all(k, sub)[t]);
                        assert(all[j].0 == seq![k] + sub[t].0);
                        assert(all[j].0[0] == k);
                        assert forall|s: int| 0 <= s < all[j].0.len() implies no_dot(#[trigger] all[j].0[s]) by {
                            if s > 0 {
                                assert(all[j].0[s] == sub[t].0[s - 1]);
                            }
                        }
                    }
                }
            },
            v => {
                assert forall|j: int| 0 <= j < all.len() implies (#[trigger] all[j]).0.len() >= 1
                    && segments_ok(all[j].0) && has_key(es, all[j].0[0]) by {
                    if j < prev.len() {
                        assert(all[j] == prev[j]);
                    } else {
                        assert(all[j].0 == seq![k]);
                        assert(all[j].0[0] == k);
                    }
                }
            },
        }
    }
}

/// Placing two lists one after the other is placing their concatenation.
proof fn lemma_build_append(root: Json, a: Seq<(Seq<Seq<char>>, Json)>, b: Seq<(Seq<Seq<char>>, Json)>)
    ensures
        build(root, a + b) == match build(root, a) {
            Some(r) => build(r, b),
            None => None,
        },
    decreases b.len(),
{
    if b.len() == 0 {
        assert(a + b =~= a);
    } else {
        assert((a + b).drop_last() =~= a + b.drop_last());
        assert((a + b).last() == b.last());
        lemma_build_append(root, a, b.drop_last());
        if build(root, a) is None {
            assert(build(root, a + b.drop_last()) is None);
        }
    }
}

/// Placing paths that all start with a new key `k` adds one entry under `k`,
/// holding what the paths build from an empty table.
proof fn lemma_build_prefixed(rs: Seq<(Seq<char>, Json)>, k: Seq<char>, ps: Seq<(Seq<Seq<char>>, Json)>)
    requires
        !has_key(rs, k),
        ps.len() >= 1,
        build(empty_table(), ps) is Some,
    ensures
        build(Json::Object(rs), prefix_all(k, ps)) == Some(
            Json::Object(rs.push((k, build(empty_table(), ps)->Some_0))),
        ),
    decreases ps.len(),
{
    let pre = prefix_all(k, ps);
    assert(pre.drop_last() =~= prefix_all(k, ps.drop_last()));
    assert(pre.last() == (seq![k] + ps.last().0, ps.last().1));
    let seg = seq![k] + ps.last().0;
    assert(seg[0] == k);
    assert(seg.drop_first() =~= ps.last().0);
    if ps.len() == 1 {
        assert(pre.drop_last().len() == 0);
        lemma_index_of(rs, k);
        assert(ps.drop_last().len() == 0);
    } else {
        assert(build(empty_table(), ps.drop_last()) is Some);
        lemma_build_prefixed(rs, k, ps.drop_last());
        let t = build(empty_table(), ps.drop_last())->Some_0;
        let rs2 = rs.push((k, t));
        lemma_index_of(rs, k);
        assert(rs2.drop_last() =~= rs);
        assert(index_of(rs2, k) == rs.len());
        let c = build(empty_table(), ps)->Some_0;
        assert(rs2.update(rs.len() as int, (k, c)) =~= rs.push((k, c)));
    }
}

/// Placing the leaf paths of well-formed entries into a table that holds none
/// of their keys adds the entries to the table.
proof fn lemma_build_entries(rs: Seq<(Seq<char>, Json)>, es: Seq<(Seq<char>, Json)>)
    requires
        entries_ok(es),
        forall|i: int| 0 <= i < es.len() ==> !has_key(rs, #[trigger] es[i].0),
    ensures
        build(Json::Object(rs), leaf_paths(es)) == Some(Json::Object(rs + es)),
    decreases es,
{
    if es.len() == 0 {
        assert(rs + es =~= rs);
    } else {
        let dl = es.drop_last();
        let k = es.last().0;
        assert forall|i: int| 0 <= i < dl.len() implies !has_key(rs, #[trigger] dl[i].0) by {
            assert(dl[i] == es[i]);
        }
        lemma_build_entries(rs, dl);
        let base = rs + dl;
        assert(base.push(es.last()) =~= rs + es);
        assert(es[es.len() - 1].0 == k);
        assert(!has_key(base, k)) by {
            if has_key(base, k) {
                let t = choose|t: int| 0 <= t < base.len() && base[t].0 == k;
                if t < rs.len() {
                    assert(rs[t].0 == k);
                } else {
                    assert(dl[t - rs.len()].0 == k);
                }
            }
        }
        match es.last().1 {
            Json::Object(inner) => {
                assert forall|i: int| 0 <= i < inner.len() implies !has_key(
                    Seq::<(Seq<char>, Json)>::empty(),
                    #[trigger] inner[i].0,
                ) by {}
                lemma_build_entries(Seq::empty(), inner);
                assert(Seq::<(Seq<char>, Json)>::empty() + inner =~= inner);
                lemma_leaf_paths_shape(inner);
                lemma_build_append(Json::Object(rs), leaf_paths(dl), prefix_all(k, leaf_paths(inner)));
                assert(empty_table() == Json::Object(Seq::<(Seq<char>, Json)>::empty()));
                assert(build(empty_table(), leaf_paths(inner)) == Some(Json::Object(inner)));
                lemma_build_prefixed(base, k, leaf_paths(inner));
                assert(leaf_paths(es) == leaf_paths(dl) + prefix_all(k, leaf_paths(inner)));
                assert(build(Json::Object(rs), leaf_paths(es)) == Some(Json::Object(base.push((k, Json::Object(inner))))));
                assert(es.last() == (k, Json::Object(inner)));
            },
            v => {
                let one = seq![(seq![k], v)];
                assert(leaf_paths(dl).push((seq![k], v)) =~= leaf_paths(dl) + one);
                lemma_build_append(Json::Object(rs), leaf_paths(dl), one);
                assert(one.drop_last() =~= Seq::<(Seq<Seq<char>>, Json)>::empty());
                lemma_index_of(base, k);
                assert(seq![k].drop_first() =~= Seq::<Seq<char>>::empty());
                assert(build(Json::Object(base), one.drop_last()) == Some(Json::Object(base)));
                assert(one.last() == (seq![k], v));
                assert(build(Json::Object(base), one) == insert_path(Json::Object(base), seq![k], v));
                assert(seq![k][0] == k);
                assert(index_of(base, k) == -1);
                assert(insert_path(empty_table(), seq![k].drop_first(), v) == Some(v));
                assert(insert_path(Json::Object(base), seq![k], v) == Some(Json::Object(base.push((k, v)))));
                assert(leaf_paths(es) == leaf_paths(dl).push((seq![k], v)));
                assert(es.last() == (k, v));
            },
        }
    }
}

/// While the keys it makes are new, flattening appends one entry per leaf.
proof fn lemma_flatten_appends(m0: Seq<(Seq<char>, Json)>, path: Seq<Seq<char>>, es: Seq<(Seq<char>, Json)>)
    requires
        entries_ok(es),
        segments_ok(path),
        forall|t: int, j: int|
            #![trigger m0[t], leaf_paths(es)[j]]
            0 <= t < m0.len() && 0 <= j < leaf_paths(es).len() ==> m0[t].0 != join_path(
                path + leaf_paths(es)[j].0,
            ),
    ensures
        flatten_entries(m0, path, es) == m0 + keyed(path, leaf_paths(es)),
    decreases es,
{
    if es.len() == 0 {
        assert(m0 + keyed(path, leaf_paths(es)) =~= m0);
    } else {
        let dl = es.drop_last();
        let k = es.last().0;
        let prev = leaf_paths(dl);
        let all = leaf_paths(es);
        lemma_leaf_paths_shape(dl);
        lemma_leaf_paths_shape(es);
        assert(all.subrange(0, prev.len() as int) =~= prev) by {
            match es.last().1 {
                Json::Object(inner) => {},
                v => {},
            }
        }
        assert forall|t: int, j: int|
            #![trigger m0[t], prev[j]]
            0 <= t < m0.len() && 0 <= j < prev.len() implies m0[t].0 != join_path(
                path + prev[j].0,
            ) by {
            assert(all[j] == prev[j]);
        }
        lemma_flatten_entries_appends_step(m0, path, es);
        lemma_flatten_appends(m0, path, dl);
        let m1 = m0 + keyed(path, prev);
        assert(es[es.len() - 1].0 == k);
        assert(no_dot(k));
        assert(segments_ok(path.push(k))) by {
            assert forall|i: int| 0 <= i < path.push(k).len() implies no_dot(#[trigger] path.push(k)[i]) by {
                if i < path.len() {
                    assert(path.push(k)[i] == path[i]);
                }
            }
        }
        match es.last().1 {
            Json::Object(inner) => {
                let sub = leaf_paths(inner);
                lemma_leaf_paths_shape(inner);
                assert(all =~= prev + prefix_all(k, sub));
                assert forall|t: int, j: int|
                    #![trigger m1[t], sub[j]]
                    0 <= t < m1.len() && 0 <= j < sub.len() implies m1[t].0 != join_path(
                        path.push(k) + sub[j].0,
                    ) by {
                    let full = path.push(k) + sub[j].0;
                    assert(full =~= path + (seq![k] + sub[j].0));
                    assert(all[prev.len() + j] == prefix_all(k, sub)[j]);
                    if t < m0.len() {
                        assert(m1[t] == m0[t]);
                    } else {
                        let q = prev[t - m0.len()].0;
                        assert(m1[t].0 == join_path(path + q));
                        let dq = choose|x: int| 0 <= x < dl.len() && dl[x].0 == q[0];
                        assert(dl[dq].0 == q[0]);
                        assert((path + q)[path.len() as int] == q[0]);
                        assert(full[path.len() as int] == k);
                        assert(path + q != full);
                        assert(segments_ok(path + q)) by {
                            assert forall|s: int| 0 <= s < (path + q).len() implies no_dot(#[trigger] (path + q)[s]) by {
                                if s >= path.len() {
                                    assert((path + q)[s] == q[s - path.len()]);
                                }
                            }
                        }
                        assert(segments_ok(full)) by {
                            assert forall|s: int| 0 <= s < full.len() implies no_dot(#[trigger] full[s]) by {
                                if s > path.len() {
                                    assert(full[s] == sub[j].0[s - path.len() - 1]);
                                } else if s < path.len() {
                                    assert(full[s] == path[s]);
                                }
                            }
                        }
                        lemma_join_injective(path + q, full);
                    }
                }
                lemma_flatten_appends(m1, path.push(k), inner);
                assert(m1 + keyed(path.push(k), sub) =~= m0 + keyed(path, all)) by {
                    assert forall|j: int| 0 <= j < sub.len() implies #[trigger] keyed(path.push(k), sub)[j]
                        == keyed(path, all)[prev.len() + j] by {
                        assert(all[prev.len() + j] == prefix_all(k, sub)[j]);
                        assert(path.push(k) + sub[j].0 =~= path + (seq![k] + sub[j].0));
                    }
                }
            },
            v => {
                let key = join_path(path.push(k));
                assert(path.push(k) =~= path + seq![k]);
                assert(all =~= prev.push((seq![k], v)));
                lemma_index_of(m1, key);
                assert(!has_key(m1, key)) by {
                    if has_key(m1, key) {
                        let t = choose|t: int| 0 <= t < m1.len() && m1[t].0 == key;
                        if t < m0.len() {
                            assert(m1[t] == m0[t]);
                            assert(all[prev.len() as int] == (seq![k], v));
                        } else {
                            let q = prev[t - m0.len()].0;
                            assert(m1[t].0 == join_path(path + q));
                            let dq = choose|x: int| 0 <= x < dl.len() && dl[x].0 == q[0];
                            assert(dl[dq].0 == q[0]);
                            assert((path + q)[path.len() as int] == q[0]);
                            assert((path + seq![k])[path.len() as int] == k);
                            assert(segments_ok(path + q)) by {
                                assert forall|s: int| 0 <= s < (path + q).len() implies no_dot(#[trigger] (path + q)[s]) by {
                                    if s >= path.len() {
                                        assert((path + q)[s] == q[s - path.len()]);
                                    }
                                }
                            }
                            lemma_join_injective(path + q, path.push(k));
                        }
                    }
                }
                assert(flat_insert(m1, key, v) =~= m0 + keyed(path, all)) by {
                    assert(keyed(path, all)[prev.len() as int] == (join_path(path + seq![k]), v));
                }
            },
        }
    }
}

/// Flattening the entries is flattening all but the last, then the last.
proof fn lemma_flatten_entries_appends_step(m0: Seq<(Seq<char>, Json)>, path: Seq<Seq<char>>, es: Seq<(Seq<char>, Json)>)
    requires
        es.len() > 0,
    ensures
        flatten_entries(m0, path, es) == match es.last().1 {
            Json::Object(inner) => flatten_entries(
                flatten_entries(m0, path, es.drop_last()),
                path.push(es.last().0),
                inner,
            ),
            v => flat_insert(flatten_entries(m0, path, es.drop_last()), join_path(path.push(es.last().0)), v),
        },
{
}

/// Rebuilding the flat entries of paths without dots is placing the paths.
proof fn lemma_unflatten_keyed(ps: Seq<(Seq<Seq<char>>, Json)>)
    requires
        forall|j: int| 0 <= j < ps.len() ==> (#[trigger] ps[j]).0.len() >= 1 && segments_ok(ps[j].0),
        build(empty_table(), ps) is Some,
    ensures
        unflatten(keyed(Seq::empty(), ps)) == Ok::<Json, Seq<char>>(build(empty_table(), ps)->Some_0),
    decreases ps.len(),
{
    if ps.len() > 0 {
        let m = keyed(Seq::empty(), ps);
        assert(m.drop_last() =~= keyed(Seq::empty(), ps.drop_last()));
        lemma_unflatten_keyed(ps.drop_last());
        let p = ps.last().0;
        assert(ps.last() == ps[ps.len() - 1]);
        assert(Seq::<Seq<char>>::empty() + p =~= p);
        lemma_split_join(p);
    }
}

/// Rebuilding the flat map of a table whose keys hold no `.`, are unique in
/// each table, and whose nested tables all have entries gives the table back.
pub proof fn lemma_round_trip(d: Json)
    requires
        d is Object,
        entries_ok(d->Object_0),
    ensures
        unflatten(flatten(d)) == Ok::<Json, Seq<char>>(d),
{
    let es = d->Object_0;
    let ps = leaf_paths(es);
    lemma_leaf_paths_shape(es);
    assert(segments_ok(Seq::<Seq<char>>::empty()));
    lemma_flatten_appends(Seq::empty(), Seq::empty(), es);
    assert(Seq::<(Seq<char>, Json)>::empty() + keyed(Seq::empty(), ps) =~= keyed(Seq::empty(), ps));
    lemma_build_entries(Seq::empty(), es);
    assert(Seq::<(Seq<char>, Json)>::empty() + es =~= es);
    lemma_unflatten_keyed(ps);
}

} // verus!
