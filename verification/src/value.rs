//! The JSON value type and the object it may hold.

use crate::model::{
    distinct_keys, json_eq, lemma_pairs_to_map_keys, lemma_pairs_to_map_len,
    lemma_pairs_to_map_value, pairs_to_map, JsonModel,
};
use crate::number::Double;
use vstd::prelude::*;

verus! {

/// A JSON value: a tree that owns its children.
#[derive(Debug)]
pub enum Json {
    Null,
    Boolean(bool),
    Number(Double),
    String(String),
    Array(Vec<Json>),
    Object(Object),
}

/// A JSON object: values under text keys, each key once. The order in which
/// the entries are stored is no part of what an object is.
#[derive(Debug)]
pub struct Object {
    entries: Vec<(String, Json)>,
}

/// The models of the items of an array, in order.
pub open spec fn items_model(items: Seq<Json>) -> Seq<JsonModel>
    decreases items,
{
    Seq::new(
        items.len(),
        |i: int|
            if 0 <= i < items.len() {
                items[i]@
            } else {
                JsonModel::Null
            },
    )
}

/// The models of stored pairs, in storage order.
pub open spec fn entries_model(entries: Seq<(String, Json)>) -> Seq<(Seq<char>, JsonModel)>
    decreases entries,
{
    Seq::new(
        entries.len(),
        |i: int|
            if 0 <= i < entries.len() {
                (entries[i].0@, entries[i].1@)
            } else {
                (Seq::empty(), JsonModel::Null)
            },
    )
}

impl View for Json {
    type V = JsonModel;

    open spec fn view(&self) -> JsonModel
        decreases self,
    {
        match self {
            Json::Null => JsonModel::Null,
            Json::Boolean(b) => JsonModel::Boolean(*b),
            Json::Number(n) => JsonModel::Number(n.bits),
            Json::String(s) => JsonModel::String(s@),
            Json::Array(items) => JsonModel::Array(items_model(items@)),
            Json::Object(o) => JsonModel::Object(o@),
        }
    }
}

impl View for Object {
    type V = Map<Seq<char>, JsonModel>;

    closed spec fn view(&self) -> Map<Seq<char>, JsonModel>
        decreases self,
    {
        pairs_to_map(entries_model(self.entries@))
    }
}

/// The place of a key among stored pairs, if it is there.
fn position(entries: &Vec<(String, Json)>, key: &String) -> (r: Option<usize>)
    ensures
        match r {
            Some(i) => i < entries.len() && entries[i as int].0@ == key@,
            None => forall|j: int| 0 <= j < entries.len() ==> entries[j].0@ != key@,
        },
{
    let mut i: usize = 0;
    while i < entries.len()
        invariant
            i <= entries.len(),
            forall|j: int| 0 <= j < i ==> entries[j].0@ != key@,
        decreases entries.len() - i,
    {
        if entries[i].0.eq(key) {
            return Some(i);
        }
        i += 1;
    }
    None
}

impl Object {
    #[verifier::type_invariant]
    spec fn well_formed(self) -> bool {
        distinct_keys(entries_model(self.entries@))
    }

    /// An object without entries.
    pub fn new() -> (o: Object)
        ensures
            o@ == Map::<Seq<char>, JsonModel>::empty(),
    {
        Object { entries: Vec::new() }
    }

    /// The number of entries.
    pub fn len(&self) -> (n: usize)
        ensures
            self@.dom().finite(),
            n == self@.len(),
    {
        proof {
            use_type_invariant(self);
            lemma_pairs_to_map_len(entries_model(self.entries@));
        }
        self.entries.len()
    }

    /// Whether the object has no entry.
    pub fn is_empty(&self) -> (r: bool)
        ensures
            r == (self@ == Map::<Seq<char>, JsonModel>::empty()),
    {
        proof {
            use_type_invariant(self);
            lemma_pairs_to_map_len(entries_model(self.entries@));
            if self@.len() == 0 {
                assert(self@ =~= Map::<Seq<char>, JsonModel>::empty());
            }
        }
        self.entries.len() == 0
    }

    /// The value under a key, if the object has the key.
    pub fn get(&self, key: &str) -> (r: Option<&Json>)
        ensures
            match r {
                Some(v) => self@.dom().contains(key@) && v@ == self@[key@],
                None => !self@.dom().contains(key@),
            },
    {
        let owned = key.to_owned();
        self.find(&owned)
    }

    /// The value under a key that is at hand as a `String`.
    fn find(&self, key: &String) -> (r: Option<&Json>)
        ensures
            match r {
                Some(v) => self@.dom().contains(key@) && v@ == self@[key@],
                None => !self@.dom().contains(key@),
            },
    {
        proof {
            use_type_invariant(self);
            lemma_pairs_to_map_keys(entries_model(self.entries@));
        }
        match position(&self.entries, key) {
            Some(i) => {
                proof {
                    lemma_pairs_to_map_value(entries_model(self.entries@), i as int);
                }
                Some(&self.entries[i].1)
            },
            None => None,
        }
    }

    /// The keys of the object, each once, in no order that callers may
    /// rely on.
    pub fn keys(&self) -> (r: Vec<String>)
        ensures
            r@.len() == self@.len(),
            forall|i: int| 0 <= i < r@.len() ==> self@.dom().contains(#[trigger] r@[i]@),
            forall|i: int, j: int| 0 <= i < j < r@.len() ==> r@[i]@ != r@[j]@,
            forall|k: Seq<char>|
                self@.dom().contains(k) ==> exists|i: int| 0 <= i < r@.len() && #[trigger] r@[i]@ == k,
    {
        let ghost stored = entries_model(self.entries@);
        proof {
            use_type_invariant(self);
            lemma_pairs_to_map_keys(stored);
            lemma_pairs_to_map_len(stored);
        }
        let mut r: Vec<String> = Vec::new();
        let mut i: usize = 0;
        while i < self.entries.len()
            invariant
                i <= self.entries.len(),
                r@.len() == i,
                forall|j: int| 0 <= j < i ==> (#[trigger] r@[j])@ == self.entries@[j].0@,
            decreases self.entries.len() - i,
        {
            r.push(self.entries[i].0.clone());
            i += 1;
        }
        proof {
            assert forall|j: int| 0 <= j < r@.len() implies self@.dom().contains(
                #[trigger] r@[j]@,
            ) by {
                assert(stored[j].0 == r@[j]@);
            }
            assert forall|a: int, b: int| 0 <= a < b < r@.len() implies r@[a]@ != r@[b]@ by {
                assert(stored[a].0 != stored[b].0);
            }
            assert forall|k: Seq<char>| self@.dom().contains(k) implies exists|j: int|
                0 <= j < r@.len() && #[trigger] r@[j]@ == k by {
                let j = choose|j: int| 0 <= j < stored.len() && #[trigger] stored[j].0 == k;
                assert(r@[j]@ == k);
            }
        }
        r
    }

    /// Whether the object has a key.
    pub fn contains_key(&self, key: &str) -> (r: bool)
        ensures
            r == self@.dom().contains(key@),
    {
        self.get(key).is_some()
    }
}

impl Object {
    /// The object that a list of `key: value` pairs denotes. Where a key
    /// occurs more than once, the value of its last pair stays.
    pub fn from_pairs(pairs: Vec<(String, Json)>) -> (o: Object)
        ensures
            o@ == pairs_to_map(entries_model(pairs@)),
    {
        let ghost all = entries_model(pairs@);
        let mut entries: Vec<(String, Json)> = Vec::new();
        let mut rest = pairs;
        // The pairs are taken from the back, so a key that is already
        // stored came later in the list and keeps its value.
        while rest.len() > 0
            invariant
                distinct_keys(entries_model(entries@)),
                rest@.len() <= all.len(),
                entries_model(rest@) == all.take(rest@.len() as int),
                pairs_to_map(all) == pairs_to_map(entries_model(rest@)).union_prefer_right(
                    pairs_to_map(entries_model(entries@)),
                ),
            decreases rest.len(),
        {
            let ghost before = entries_model(rest@);
            let ghost stored = entries_model(entries@);
            let pair = rest.pop().unwrap();
            proof {
                lemma_pairs_to_map_keys(stored);
                assert(entries_model(rest@) =~= before.drop_last());
                assert(before.last() == (pair.0@, pair.1@));
                assert(entries_model(rest@) =~= all.take(rest@.len() as int));
            }
            let found = position(&entries, &pair.0);
            if found.is_none() {
                entries.push(pair);
                proof {
                    let grown = entries_model(entries@);
                    assert(grown.drop_last() =~= stored);
                    assert(distinct_keys(grown)) by {
                        assert forall|i: int, j: int| 0 <= i < j < grown.len() implies grown[i].0
                            != grown[j].0 by {
                            assert(grown[i] == stored[i]);
                            if j < stored.len() {
                                assert(grown[j] == stored[j]);
                            }
                        }
                    }
                    assert(pairs_to_map(all) =~= pairs_to_map(
                        entries_model(rest@),
                    ).union_prefer_right(pairs_to_map(grown)));
                }
            } else {
                proof {
                    assert(stored[found.unwrap() as int].0 == pair.0@);
                    assert(pairs_to_map(stored).dom().contains(pair.0@));
                    assert(pairs_to_map(before) == pairs_to_map(before.drop_last()).insert(
                        pair.0@,
                        pair.1@,
                    ));
                    assert(pairs_to_map(all) =~= pairs_to_map(
                        entries_model(rest@),
                    ).union_prefer_right(pairs_to_map(stored)));
                }
            }
        }
        proof {
            assert(pairs_to_map(all) =~= pairs_to_map(entries_model(entries@)));
        }
        Object { entries }
    }
}

impl Clone for Object {
    /// A copy that owns its own entries.
    fn clone(&self) -> (o: Object)
        ensures
            o@ == self@,
        decreases self,
    {
        proof {
            use_type_invariant(self);
        }
        let mut entries: Vec<(String, Json)> = Vec::new();
        let mut i: usize = 0;
        while i < self.entries.len()
            invariant
                i <= self.entries.len(),
                entries.len() == i,
                forall|j: int|
                    0 <= j < i ==> entries[j].0@ == self.entries[j].0@ && entries[j].1@
                        == self.entries[j].1@,
            decreases self.entries.len() - i,
        {
            let key = self.entries[i].0.clone();
            let value = self.entries[i].1.clone();
            entries.push((key, value));
            i += 1;
        }
        proof {
            assert(entries_model(entries@) =~= entries_model(self.entries@));
        }
        Object { entries }
    }
}

impl Clone for Json {
    /// A copy that owns its own children.
    #[verifier::loop_isolation(false)]
    fn clone(&self) -> (r: Json)
        ensures
            r@ == self@,
        decreases self,
    {
        match self {
            Json::Null => Json::Null,
            Json::Boolean(b) => Json::Boolean(*b),
            Json::Number(n) => Json::Number(*n),
            Json::String(s) => Json::String(s.clone()),
            Json::Array(items) => {
                let mut copies: Vec<Json> = Vec::new();
                let mut i: usize = 0;
                while i < items.len()
                    invariant
                        i <= items.len(),
                        copies.len() == i,
                        forall|j: int| 0 <= j < i ==> copies[j]@ == items[j]@,
                    decreases items.len() - i,
                {
                    copies.push(items[i].clone());
                    i += 1;
                }
                let r = Json::Array(copies);
                proof {
                    assert(r@->Array_0 =~= self@->Array_0);
                }
                r
            },
            Json::Object(o) => Json::Object(o.clone()),
        }
    }
}

impl PartialEq for Object {
    /// Whether two objects have the same keys, with equal values under each.
    #[verifier::loop_isolation(false)]
    fn eq(&self, other: &Object) -> (r: bool)
        decreases self,
    {
        let ghost mine = entries_model(self.entries@);
        proof {
            use_type_invariant(self);
            use_type_invariant(other);
            lemma_pairs_to_map_keys(mine);
            lemma_pairs_to_map_len(mine);
            lemma_pairs_to_map_len(entries_model(other.entries@));
        }
        if self.entries.len() != other.entries.len() {
            return false;
        }
        let mut i: usize = 0;
        while i < self.entries.len()
            invariant
                i <= self.entries.len(),
                forall|j: int|
                    0 <= j < i ==> other@.dom().contains(#[trigger] mine[j].0) && json_eq(
                        mine[j].1,
                        other@[mine[j].0],
                    ),
            decreases self.entries.len() - i,
        {
            proof {
                lemma_pairs_to_map_value(mine, i as int);
            }
            match other.find(&self.entries[i].0) {
                None => {
                    return false;
                },
                Some(theirs) => {
                    if !self.entries[i].1.eq(theirs) {
                        return false;
                    }
                },
            }
            i += 1;
        }
        proof {
            assert forall|k: Seq<char>| self@.dom().contains(k) implies other@.dom().contains(k)
                && json_eq(#[trigger] self@[k], other@[k]) by {
                let j = choose|j: int| 0 <= j < mine.len() && #[trigger] mine[j].0 == k;
                lemma_pairs_to_map_value(mine, j);
            }
            assert(self@.dom().subset_of(other@.dom()));
            vstd::set_lib::lemma_subset_equality(self@.dom(), other@.dom());
        }
        true
    }
}

impl vstd::std_specs::cmp::PartialEqSpecImpl for Object {
    open spec fn obeys_eq_spec() -> bool {
        true
    }

    open spec fn eq_spec(&self, other: &Object) -> bool {
        json_eq(JsonModel::Object(self@), JsonModel::Object(other@))
    }
}

impl PartialEq for Json {
    /// Structural equality: the same variant, and equal payloads.
    #[verifier::loop_isolation(false)]
    fn eq(&self, other: &Json) -> (r: bool)
        decreases self,
    {
        match self {
            Json::Null => matches!(other, Json::Null),
            Json::Boolean(a) => match other {
                Json::Boolean(b) => *a == *b,
                _ => false,
            },
            Json::Number(a) => match other {
                Json::Number(b) => a.eq(b),
                _ => false,
            },
            Json::String(a) => match other {
                Json::String(b) => a.eq(b),
                _ => false,
            },
            Json::Array(a) => match other {
                Json::Array(b) => {
                    let ghost xs = items_model(a@);
                    let ghost ys = items_model(b@);
                    if a.len() != b.len() {
                        return false;
                    }
                    let mut i: usize = 0;
                    while i < a.len()
                        invariant
                            i <= a.len(),
                            forall|j: int| 0 <= j < i ==> json_eq(#[trigger] xs[j], ys[j]),
                        decreases a.len() - i,
                    {
                        if !a[i].eq(&b[i]) {
                            assert(!json_eq(xs[i as int], ys[i as int]));
                            return false;
                        }
                        i += 1;
                    }
                    true
                },
                _ => false,
            },
            Json::Object(a) => match other {
                Json::Object(b) => a.eq(b),
                _ => false,
            },
        }
    }
}

impl vstd::std_specs::cmp::PartialEqSpecImpl for Json {
    open spec fn obeys_eq_spec() -> bool {
        true
    }

    open spec fn eq_spec(&self, other: &Json) -> bool {
        json_eq(self@, other@)
    }
}


impl Json {
    /// The value `null`.
    pub fn null() -> (r: Json)
        ensures
            r@ == JsonModel::Null,
    {
        Json::Null
    }

    /// The array of the given items, in their order.
    pub fn array(items: Vec<Json>) -> (r: Json)
        ensures
            r@ == JsonModel::Array(items_model(items@)),
            r == Json::Array(items),
    {
        Json::Array(items)
    }

    /// The object that a list of `key: value` pairs denotes. Where a key
    /// occurs more than once, the value of its last pair stays.
    pub fn object(pairs: Vec<(String, Json)>) -> (r: Json)
        ensures
            r@ == JsonModel::Object(pairs_to_map(entries_model(pairs@))),
    {
        Json::Object(Object::from_pairs(pairs))
    }

    /// Whether this is `null`.
    pub fn is_null(&self) -> (r: bool)
        ensures
            r == (self@ is Null),
    {
        matches!(self, Json::Null)
    }

    /// The payload of a `Boolean`; `None` for any other variant.
    pub fn as_boolean(&self) -> (r: Option<bool>)
        ensures
            r == self@.boolean(),
    {
        match self {
            Json::Boolean(b) => Some(*b),
            _ => None,
        }
    }

    /// The payload of a `Number`; `None` for any other variant.
    pub fn as_number(&self) -> (r: Option<Double>)
        ensures
            match r {
                Some(n) => self@.number() == Some(n.bits),
                None => self@.number() is None,
            },
    {
        match self {
            Json::Number(n) => Some(*n),
            _ => None,
        }
    }

    /// The text of a `String`; `None` for any other variant.
    pub fn as_str(&self) -> (r: Option<&str>)
        ensures
            match r {
                Some(s) => self@.text() == Some(s@),
                None => self@.text() is None,
            },
    {
        match self {
            Json::String(s) => Some(s.as_str()),
            _ => None,
        }
    }

    /// The items of an `Array`; `None` for any other variant.
    pub fn as_array(&self) -> (r: Option<&Vec<Json>>)
        ensures
            match r {
                Some(items) => self@.items() == Some(items_model(items@)),
                None => self@.items() is None,
            },
    {
        match self {
            Json::Array(items) => Some(items),
            _ => None,
        }
    }

    /// The entries of an `Object`; `None` for any other variant.
    pub fn as_object(&self) -> (r: Option<&Object>)
        ensures
            match r {
                Some(o) => self@.entries() == Some(o@),
                None => self@.entries() is None,
            },
    {
        match self {
            Json::Object(o) => Some(o),
            _ => None,
        }
    }
}

} // verus!
