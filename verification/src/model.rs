//! The mathematical model of a JSON value, and what equality means on it.

use crate::number::bits_eq;
use vstd::prelude::*;

verus! {

/// The mathematical model of a JSON value: a tree whose arrays are sequences
/// and whose objects are maps keyed by text. A number is its binary64 bit
/// pattern.
pub enum JsonModel {
    Null,
    Boolean(bool),
    Number(u64),
    String(Seq<char>),
    Array(Seq<JsonModel>),
    Object(Map<Seq<char>, JsonModel>),
}

impl JsonModel {
    /// The payload of a `Boolean`; of no other variant.
    pub open spec fn boolean(self) -> Option<bool> {
        match self {
            JsonModel::Boolean(b) => Some(b),
            _ => None,
        }
    }

    /// The bit pattern held by a `Number`; of no other variant.
    pub open spec fn number(self) -> Option<u64> {
        match self {
            JsonModel::Number(bits) => Some(bits),
            _ => None,
        }
    }

    /// The text of a `String`; of no other variant.
    pub open spec fn text(self) -> Option<Seq<char>> {
        match self {
            JsonModel::String(s) => Some(s),
            _ => None,
        }
    }

    /// The items of an `Array`; of no other variant.
    pub open spec fn items(self) -> Option<Seq<JsonModel>> {
        match self {
            JsonModel::Array(items) => Some(items),
            _ => None,
        }
    }

    /// The entries of an `Object`; of no other variant.
    pub open spec fn entries(self) -> Option<Map<Seq<char>, JsonModel>> {
        match self {
            JsonModel::Object(entries) => Some(entries),
            _ => None,
        }
    }
}

/// Structural equality of two values: the same variant, and equal payloads.
/// Arrays are compared position by position, objects key by key, and numbers
/// as IEEE 754 compares them.
pub open spec fn json_eq(a: JsonModel, b: JsonModel) -> bool
    decreases a,
{
    match a {
        JsonModel::Null => b is Null,
        JsonModel::Boolean(x) => b matches JsonModel::Boolean(y) && x == y,
        JsonModel::Number(x) => b matches JsonModel::Number(y) && bits_eq(x, y),
        JsonModel::String(x) => b matches JsonModel::String(y) && x == y,
        JsonModel::Array(x) => b matches JsonModel::Array(y) && x.len() == y.len() && forall|
            i: int,
        |
            0 <= i < x.len() ==> json_eq(#[trigger] x[i], y[i]),
        JsonModel::Object(x) => b matches JsonModel::Object(y) && x.dom() == y.dom() && forall|
            k: Seq<char>,
        |
            x.dom().contains(k) ==> json_eq(#[trigger] x[k], y[k]),
    }
}

/// The map that a list of `key: value` pairs denotes: the pairs are entered
/// from left to right, so a later pair replaces an earlier one that has the
/// same key.
pub open spec fn pairs_to_map(pairs: Seq<(Seq<char>, JsonModel)>) -> Map<Seq<char>, JsonModel>
    decreases pairs.len(),
{
    if pairs.len() == 0 {
        Map::empty()
    } else {
        pairs_to_map(pairs.drop_last()).insert(pairs.last().0, pairs.last().1)
    }
}

/// Whether no key occurs twice in a list of pairs.
pub open spec fn distinct_keys(pairs: Seq<(Seq<char>, JsonModel)>) -> bool {
    forall|i: int, j: int| 0 <= i < j < pairs.len() ==> pairs[i].0 != pairs[j].0
}

/// The keys of the map that a list of pairs denotes are the keys of the
/// pairs, and there are finitely many of them.
pub proof fn lemma_pairs_to_map_keys(pairs: Seq<(Seq<char>, JsonModel)>)
    ensures
        pairs_to_map(pairs).dom().finite(),
        pairs_to_map(pairs).dom().len() <= pairs.len(),
        forall|k: Seq<char>| #[trigger]
            pairs_to_map(pairs).dom().contains(k) <==> exists|i: int|
                0 <= i < pairs.len() && #[trigger] pairs[i].0 == k,
    decreases pairs.len(),
{
    if pairs.len() > 0 {
        let front = pairs.drop_last();
        lemma_pairs_to_map_keys(front);
        assert forall|k: Seq<char>| #[trigger]
            pairs_to_map(pairs).dom().contains(k) implies exists|i: int|
            0 <= i < pairs.len() && #[trigger] pairs[i].0 == k by {
            if k == pairs.last().0 {
                assert(pairs[pairs.len() - 1].0 == k);
            } else {
                let i = choose|i: int| 0 <= i < front.len() && #[trigger] front[i].0 == k;
                assert(pairs[i].0 == k);
            }
        }
        assert forall|k: Seq<char>|
            (exists|i: int|
                0 <= i < pairs.len() && #[trigger] pairs[i].0 == k) implies #[trigger]
            pairs_to_map(pairs).dom().contains(k) by {
            let i = choose|i: int| 0 <= i < pairs.len() && #[trigger] pairs[i].0 == k;
            if i < pairs.len() - 1 {
                assert(front[i].0 == k);
            }
        }
    }
}

/// The value under a key is that of the last pair with this key.
pub proof fn lemma_pairs_to_map_value(pairs: Seq<(Seq<char>, JsonModel)>, i: int)
    requires
        0 <= i < pairs.len(),
        forall|j: int| i < j < pairs.len() ==> pairs[j].0 != pairs[i].0,
    ensures
        pairs_to_map(pairs).dom().contains(pairs[i].0),
        pairs_to_map(pairs)[pairs[i].0] == pairs[i].1,
    decreases pairs.len(),
{
    if i < pairs.len() - 1 {
        let front = pairs.drop_last();
        assert(front[i] == pairs[i]);
        assert forall|j: int| i < j < front.len() implies front[j].0 != front[i].0 by {
            assert(front[j] == pairs[j]);
        }
        lemma_pairs_to_map_value(front, i);
        assert(pairs.last().0 != pairs[i].0);
    }
}

/// A list of pairs with distinct keys denotes a map with as many entries.
pub proof fn lemma_pairs_to_map_len(pairs: Seq<(Seq<char>, JsonModel)>)
    requires
        distinct_keys(pairs),
    ensures
        pairs_to_map(pairs).dom().finite(),
        pairs_to_map(pairs).dom().len() == pairs.len(),
    decreases pairs.len(),
{
    lemma_pairs_to_map_keys(pairs);
    if pairs.len() > 0 {
        let front = pairs.drop_last();
        assert(distinct_keys(front)) by {
            assert forall|i: int, j: int| 0 <= i < j < front.len() implies front[i].0
                != front[j].0 by {
                assert(front[i] == pairs[i] && front[j] == pairs[j]);
            }
        }
        lemma_pairs_to_map_len(front);
        lemma_pairs_to_map_keys(front);
        if pairs_to_map(front).dom().contains(pairs.last().0) {
            let i = choose|i: int| 0 <= i < front.len() && #[trigger] front[i].0 == pairs.last().0;
            assert(front[i] == pairs[i]);
            assert(false);
        }
    }
}

} // verus!
