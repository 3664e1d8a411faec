//! The configuration value type and its mathematical model.

use vstd::prelude::*;

verus! {

broadcast use {
    vstd::std_specs::vec::axiom_vec_decreases_to_view,
    vstd::std_specs::vec::axiom_vec_index_decreases,
    vstd::seq::axiom_seq_index_decreases,
    vstd::seq::axiom_seq_subrange_decreases,
};

/// The model of a configuration value: a JSON-like tree.
///
/// An object is an ordered list of entries; a well-formed one has unique keys.
pub enum Json {
    Null,
    Bool(bool),
    Integer(i64),
    Float(u64),
    Str(Seq<char>),
    Array(Seq<Json>),
    Object(Seq<(Seq<char>, Json)>),
}

/// A configuration value.
///
/// A floating-point number is held as its IEEE-754 bit pattern.
pub enum ConfigValue {
    Null,
    Bool(bool),
    Integer(i64),
    Float(u64),
    String(String),
    Array(Vec<ConfigValue>),
    Object(Vec<(String, ConfigValue)>),
}

/// The models of a list of values, one for one.
pub open spec fn view_items(items: Seq<ConfigValue>) -> Seq<Json>
    decreases items,
{
    if items.len() == 0 {
        Seq::empty()
    } else {
        view_items(items.drop_last()).push(view_value(items.last()))
    }
}

/// The models of a list of object entries, one for one.
pub open spec fn view_entries(entries: Seq<(String, ConfigValue)>) -> Seq<(Seq<char>, Json)>
    decreases entries,
{
    if entries.len() == 0 {
        Seq::empty()
    } else {
        view_entries(entries.drop_last()).push(
            (entries.last().0@, view_value(entries.last().1)),
        )
    }
}

/// The model of a value.
pub open spec fn view_value(v: ConfigValue) -> Json
    decreases v,
{
    match v {
        ConfigValue::Null => Json::Null,
        ConfigValue::Bool(b) => Json::Bool(b),
        ConfigValue::Integer(n) => Json::Integer(n),
        ConfigValue::Float(f) => Json::Float(f),
        ConfigValue::String(s) => Json::Str(s@),
        ConfigValue::Array(items) => Json::Array(view_items(items@)),
        ConfigValue::Object(entries) => Json::Object(view_entries(entries@)),
    }
}

/// The models of a list of values, by position.
pub proof fn lemma_view_items(items: Seq<ConfigValue>)
    ensures
        view_items(items).len() == items.len(),
        forall|i: int| 0 <= i < items.len() ==> #[trigger] view_items(items)[i] == view_value(items[i]),
    decreases items.len(),
{
    if items.len() > 0 {
        lemma_view_items(items.drop_last());
    }
}

/// The models of a list of object entries, by position.
pub proof fn lemma_view_entries(entries: Seq<(String, ConfigValue)>)
    ensures
        view_entries(entries).len() == entries.len(),
        forall|i: int|
            0 <= i < entries.len() ==> #[trigger] view_entries(entries)[i] == (
                entries[i].0@,
                view_value(entries[i].1),
            ),
    decreases entries.len(),
{
    if entries.len() > 0 {
        lemma_view_entries(entries.drop_last());
    }
}

impl View for ConfigValue {
    type V = Json;

    open spec fn view(&self) -> Json {
        view_value(*self)
    }
}

impl ConfigValue {
    /// Returns an independent copy of this value.
    pub fn deep_clone(&self) -> (r: ConfigValue)
        ensures
            r@ == self@,
        decreases self,
    {
        match self {
            ConfigValue::Null => ConfigValue::Null,
            ConfigValue::Bool(b) => ConfigValue::Bool(*b),
            ConfigValue::Integer(n) => ConfigValue::Integer(*n),
            ConfigValue::Float(f) => ConfigValue::Float(*f),
            ConfigValue::String(s) => ConfigValue::String(s.clone()),
            ConfigValue::Array(items) => {
                let mut out: Vec<ConfigValue> = Vec::new();
                let mut i: usize = 0;
                while i < items.len()
                    invariant
                        *self == ConfigValue::Array(*items),
                        decreases_to!(*self => *items),
                        i <= items.len(),
                        out.len() == i,
                        forall|j: int| 0 <= j < i ==> (#[trigger] out[j])@ == items[j]@,
                    decreases items.len() - i,
                {
                    proof {
                        assert(decreases_to!(*items => items[i as int]));
                    }
                    let item = items[i].deep_clone();
                    out.push(item);
                    i += 1;
                }
                proof {
                    lemma_view_items(out@);
                    lemma_view_items(items@);
                    assert(view_items(out@) =~= view_items(items@));
                }
                ConfigValue::Array(out)
            },
            ConfigValue::Object(entries) => {
                let mut out: Vec<(String, ConfigValue)> = Vec::new();
                let mut i: usize = 0;
                while i < entries.len()
                    invariant
                        *self == ConfigValue::Object(*entries),
                        decreases_to!(*self => *entries),
                        i <= entries.len(),
                        out.len() == i,
                        forall|j: int|
                            0 <= j < i ==> (#[trigger] out[j]).0@ == entries[j].0@ && out[j].1@
                                == entries[j].1@,
                    decreases entries.len() - i,
                {
                    let key = entries[i].0.clone();
                    proof {
                        assert(decreases_to!(*entries => entries[i as int]));
                        assert(decreases_to!(entries[i as int] => entries[i as int].1));
                    }
                    let value = entries[i].1.deep_clone();
                    out.push((key, value));
                    i += 1;
                }
                proof {
                    lemma_view_entries(out@);
                    lemma_view_entries(entries@);
                    assert(view_entries(out@) =~= view_entries(entries@));
                }
                ConfigValue::Object(out)
            },
        }
    }

    /// Tells whether two values are the same: same kind, same contents, and for
    /// objects the same entries in the same order.
    pub fn same_as(&self, other: &ConfigValue) -> (r: bool)
        ensures
            r == (self@ == other@),
        decreases self,
    {
        match (self, other) {
            (ConfigValue::Null, ConfigValue::Null) => true,
            (ConfigValue::Bool(a), ConfigValue::Bool(b)) => *a == *b,
            (ConfigValue::Integer(a), ConfigValue::Integer(b)) => *a == *b,
            (ConfigValue::Float(a), ConfigValue::Float(b)) => *a == *b,
            (ConfigValue::String(a), ConfigValue::String(b)) => *a == *b,
            (ConfigValue::Array(a), ConfigValue::Array(b)) => {
                if a.len() != b.len() {
                    proof {
                        lemma_view_items(a@);
                        lemma_view_items(b@);
                    }
                    return false;
                }
                let mut i: usize = 0;
                while i < a.len()
                    invariant
                        *self == ConfigValue::Array(*a),
                        decreases_to!(*self => *a),
                        *other == ConfigValue::Array(*b),
                        i <= a.len(),
                        a.len() == b.len(),
                        forall|j: int| 0 <= j < i ==> (#[trigger] a[j])@ == b[j]@,
                    decreases a.len() - i,
                {
                    proof {
                        assert(decreases_to!(*a => a[i as int]));
                    }
                    if !a[i].same_as(&b[i]) {
                        proof {
                            lemma_view_items(a@);
                            lemma_view_items(b@);
                            assert(view_items(a@)[i as int] != view_items(b@)[i as int]);
                        }
                        return false;
                    }
                    i += 1;
                }
                proof {
                    lemma_view_items(a@);
                    lemma_view_items(b@);
                    assert(view_items(a@) =~= view_items(b@));
                }
                true
            },
            (ConfigValue::Object(a), ConfigValue::Object(b)) => {
                if a.len() != b.len() {
                    proof {
                        lemma_view_entries(a@);
                        lemma_view_entries(b@);
                    }
                    return false;
                }
                let mut i: usize = 0;
                while i < a.len()
                    invariant
                        *self == ConfigValue::Object(*a),
                        decreases_to!(*self => *a),
                        *other == ConfigValue::Object(*b),
                        i <= a.len(),
                        a.len() == b.len(),
                        forall|j: int|
                            0 <= j < i ==> (#[trigger] a[j]).0@ == b[j].0@ && a[j].1@ == b[j].1@,
                    decreases a.len() - i,
                {
                    proof {
                        assert(decreases_to!(*a => a[i as int]));
                        assert(decreases_to!(a[i as int] => a[i as int].1));
                    }
                    if a[i].0 != b[i].0 || !a[i].1.same_as(&b[i].1) {
                        proof {
                            lemma_view_entries(a@);
                            lemma_view_entries(b@);
                            assert(view_entries(a@)[i as int] != view_entries(b@)[i as int]);
                        }
                        return false;
                    }
                    i += 1;
                }
                proof {
                    lemma_view_entries(a@);
                    lemma_view_entries(b@);
                    assert(view_entries(a@) =~= view_entries(b@));
                }
                true
            },
            _ => false,
        }
    }
}

} // verus!
