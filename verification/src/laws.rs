//! What holds of values, of their equality and of what literals build to,
//! whatever the input.

use crate::grammar::{
    items_tokens, lemma_literal_of_tokens, literal_of, pair_tokens, pairs_of, pairs_tokens,
    values_of, Literal, TokenModel,
};
use crate::model::{
    distinct_keys, json_eq, lemma_pairs_to_map_keys, lemma_pairs_to_map_len,
    lemma_pairs_to_map_value, pairs_to_map, JsonModel,
};
use crate::number::{double_of_int, is_nan_bits};
use crate::value::Json;
use vstd::prelude::*;
use vstd::std_specs::convert::FromSpec;

verus! {

/// Whether no number in a value is a NaN.
pub open spec fn nan_free(v: JsonModel) -> bool
    decreases v,
{
    match v {
        JsonModel::Number(bits) => !is_nan_bits(bits),
        JsonModel::Array(items) => forall|i: int|
            0 <= i < items.len() ==> nan_free(#[trigger] items[i]),
        JsonModel::Object(entries) => forall|k: Seq<char>|
            entries.dom().contains(k) ==> nan_free(#[trigger] entries[k]),
        _ => true,
    }
}

/// Coercing a boolean and taking the boolean out again gives it back, and
/// the coerced value is the `Boolean` made directly.
pub proof fn lemma_boolean_round_trip(b: bool)
    ensures
        <Json as FromSpec<bool>>::from_spec(b) == Json::Boolean(b),
        <Json as FromSpec<bool>>::from_spec(b)@.boolean() == Some(b),
{
}

/// Coercing an owned text and taking the text out again gives it back, and
/// the coerced value is the `String` made directly.
pub proof fn lemma_text_round_trip(s: String)
    ensures
        <Json as FromSpec<String>>::from_spec(s) == Json::String(s),
        <Json as FromSpec<String>>::from_spec(s)@.text() == Some(s@),
{
}

/// Coercing an unsigned integer of any width and taking the number out
/// again gives the double nearest to the integer.
pub proof fn lemma_unsigned_round_trip(a: u8, b: u16, c: u32, d: u64, e: u128, f: usize)
    ensures
        <Json as FromSpec<u8>>::from_spec(a)@.number() == Some(double_of_int(a as int).bits),
        <Json as FromSpec<u16>>::from_spec(b)@.number() == Some(double_of_int(b as int).bits),
        <Json as FromSpec<u32>>::from_spec(c)@.number() == Some(double_of_int(c as int).bits),
        <Json as FromSpec<u64>>::from_spec(d)@.number() == Some(double_of_int(d as int).bits),
        <Json as FromSpec<u128>>::from_spec(e)@.number() == Some(double_of_int(e as int).bits),
        <Json as FromSpec<usize>>::from_spec(f)@.number() == Some(double_of_int(f as int).bits),
{
}

/// Coercing a signed integer of any width and taking the number out again
/// gives the double nearest to the integer.
pub proof fn lemma_signed_round_trip(a: i8, b: i16, c: i32, d: i64, e: i128, f: isize)
    ensures
        <Json as FromSpec<i8>>::from_spec(a)@.number() == Some(double_of_int(a as int).bits),
        <Json as FromSpec<i16>>::from_spec(b)@.number() == Some(double_of_int(b as int).bits),
        <Json as FromSpec<i32>>::from_spec(c)@.number() == Some(double_of_int(c as int).bits),
        <Json as FromSpec<i64>>::from_spec(d)@.number() == Some(double_of_int(d as int).bits),
        <Json as FromSpec<i128>>::from_spec(e)@.number() == Some(double_of_int(e as int).bits),
        <Json as FromSpec<isize>>::from_spec(f)@.number() == Some(double_of_int(f as int).bits),
{
}

/// The keyword `null` alone is a literal, and it builds to `Null`.
pub proof fn lemma_null_builds_null()
    ensures
        literal_of(seq![TokenModel::Null]) == Some(Literal::Null),
        Literal::Null.value() == JsonModel::Null,
{
    lemma_literal_of_tokens(Literal::Null);
}

/// `[` `]` is a literal, and it builds to an array without items.
pub proof fn lemma_empty_array()
    ensures
        literal_of(seq![TokenModel::OpenBracket, TokenModel::CloseBracket]) == Some(
            Literal::Array(Seq::empty()),
        ),
        Literal::Array(Seq::empty()).value() == JsonModel::Array(Seq::empty()),
{
    let l = Literal::Array(Seq::empty());
    lemma_literal_of_tokens(l);
    assert(items_tokens(Seq::empty()) =~= Seq::empty());
    assert(l.tokens() =~= seq![TokenModel::OpenBracket, TokenModel::CloseBracket]);
    assert(values_of(Seq::empty()) =~= Seq::empty());
}

/// `{` `}` is a literal, and it builds to an object without entries.
pub proof fn lemma_empty_object()
    ensures
        literal_of(seq![TokenModel::OpenBrace, TokenModel::CloseBrace]) == Some(
            Literal::Object(Seq::empty()),
        ),
        Literal::Object(Seq::empty()).value() == JsonModel::Object(Map::empty()),
        Map::<Seq<char>, JsonModel>::empty().len() == 0,
{
    let l = Literal::Object(Seq::empty());
    lemma_literal_of_tokens(l);
    assert(pairs_tokens(Seq::empty()) =~= Seq::empty());
    assert(l.tokens() =~= seq![TokenModel::OpenBrace, TokenModel::CloseBrace]);
    assert(pairs_of(Seq::empty()) =~= Seq::empty());
}

/// A braced literal with the single pair `key: l` builds to an object with
/// one entry, and the value under `key` is what `l` builds to.
pub proof fn lemma_single_pair(key: Seq<char>, l: Literal)
    ensures
        literal_of(
            seq![TokenModel::OpenBrace, TokenModel::Value(JsonModel::String(key)), TokenModel::Colon]
                + l.tokens() + seq![TokenModel::CloseBrace],
        ) == Some(Literal::Object(seq![(key, l)])),
        Literal::Object(seq![(key, l)]).value() == JsonModel::Object(
            Map::empty().insert(key, l.value()),
        ),
        Map::<Seq<char>, JsonModel>::empty().insert(key, l.value()).len() == 1,
        Map::<Seq<char>, JsonModel>::empty().insert(key, l.value())[key] == l.value(),
{
    let pairs = seq![(key, l)];
    let object = Literal::Object(pairs);
    lemma_literal_of_tokens(object);
    assert(pair_tokens(pairs[0]) =~= seq![
        TokenModel::Value(JsonModel::String(key)),
        TokenModel::Colon,
    ] + l.tokens());
    assert(object.tokens() =~= seq![
        TokenModel::OpenBrace,
        TokenModel::Value(JsonModel::String(key)),
        TokenModel::Colon,
    ] + l.tokens() + seq![TokenModel::CloseBrace]);
    let built = pairs_of(pairs);
    assert(built =~= seq![(key, l.value())]);
    assert(built.drop_last() =~= Seq::empty());
    assert(pairs_to_map(built.drop_last()) == Map::<Seq<char>, JsonModel>::empty());
    let entries = Map::<Seq<char>, JsonModel>::empty().insert(key, l.value());
    assert(entries.dom() =~= set![key]);
}

/// A braced literal that gives one key twice builds to an object with one
/// entry, and the value under the key is what the later literal builds to.
pub proof fn lemma_repeated_key(key: Seq<char>, first: Literal, second: Literal)
    ensures
        literal_of(
            seq![TokenModel::OpenBrace, TokenModel::Value(JsonModel::String(key)), TokenModel::Colon]
                + first.tokens() + seq![
                TokenModel::Comma,
                TokenModel::Value(JsonModel::String(key)),
                TokenModel::Colon,
            ] + second.tokens() + seq![TokenModel::CloseBrace],
        ) == Some(Literal::Object(seq![(key, first), (key, second)])),
        Literal::Object(seq![(key, first), (key, second)]).value() == JsonModel::Object(
            Map::empty().insert(key, second.value()),
        ),
        Map::<Seq<char>, JsonModel>::empty().insert(key, second.value()).len() == 1,
        Map::<Seq<char>, JsonModel>::empty().insert(key, second.value())[key] == second.value(),
{
    let pairs = seq![(key, first), (key, second)];
    let object = Literal::Object(pairs);
    let head = seq![TokenModel::Value(JsonModel::String(key)), TokenModel::Colon];
    lemma_literal_of_tokens(object);
    assert(pair_tokens(pairs[0]) =~= head + first.tokens());
    assert(pairs.skip(1) =~= seq![(key, second)]);
    assert(pair_tokens(pairs.skip(1)[0]) =~= head + second.tokens());
    assert(pairs_tokens(pairs.skip(1)) =~= head + second.tokens());
    assert(pairs_tokens(pairs) =~= head + first.tokens() + seq![TokenModel::Comma] + (head
        + second.tokens()));
    assert(object.tokens() =~= seq![
        TokenModel::OpenBrace,
        TokenModel::Value(JsonModel::String(key)),
        TokenModel::Colon,
    ] + first.tokens() + seq![
        TokenModel::Comma,
        TokenModel::Value(JsonModel::String(key)),
        TokenModel::Colon,
    ] + second.tokens() + seq![TokenModel::CloseBrace]);
    let built = pairs_of(pairs);
    assert(built =~= seq![(key, first.value()), (key, second.value())]);
    assert(built.drop_last() =~= seq![(key, first.value())]);
    assert(built.drop_last().drop_last() =~= Seq::empty());
    assert(pairs_to_map(built.drop_last().drop_last()) == Map::<Seq<char>, JsonModel>::empty());
    assert(pairs_to_map(built.drop_last()) == Map::<Seq<char>, JsonModel>::empty().insert(
        key,
        first.value(),
    ));
    let entries = Map::<Seq<char>, JsonModel>::empty().insert(key, second.value());
    assert(pairs_to_map(built) =~= entries);
    assert(entries.dom() =~= set![key]);
}

/// A value without a NaN equals itself.
pub proof fn lemma_eq_reflexive(v: JsonModel)
    requires
        nan_free(v),
    ensures
        json_eq(v, v),
    decreases v,
{
    match v {
        JsonModel::Array(items) => {
            assert forall|i: int| 0 <= i < items.len() implies json_eq(
                #[trigger] items[i],
                items[i],
            ) by {
                lemma_eq_reflexive(items[i]);
            }
        },
        JsonModel::Object(entries) => {
            assert forall|k: Seq<char>| entries.dom().contains(k) implies json_eq(
                #[trigger] entries[k],
                entries[k],
            ) by {
                lemma_eq_reflexive(entries[k]);
            }
        },
        _ => {},
    }
}

/// Where a value equals another, the other equals it.
pub proof fn lemma_eq_symmetric(a: JsonModel, b: JsonModel)
    requires
        json_eq(a, b),
    ensures
        json_eq(b, a),
    decreases a,
{
    match a {
        JsonModel::Array(x) => {
            let y = b->Array_0;
            assert forall|i: int| 0 <= i < y.len() implies json_eq(#[trigger] y[i], x[i]) by {
                assert(json_eq(x[i], y[i]));
                lemma_eq_symmetric(x[i], y[i]);
            }
        },
        JsonModel::Object(x) => {
            let y = b->Object_0;
            assert forall|k: Seq<char>| y.dom().contains(k) implies json_eq(
                #[trigger] y[k],
                x[k],
            ) by {
                assert(json_eq(x[k], y[k]));
                lemma_eq_symmetric(x[k], y[k]);
            }
        },
        _ => {},
    }
}

/// Where a value equals a second and the second a third, the first equals
/// the third.
pub proof fn lemma_eq_transitive(a: JsonModel, b: JsonModel, c: JsonModel)
    requires
        json_eq(a, b),
        json_eq(b, c),
    ensures
        json_eq(a, c),
    decreases a,
{
    match a {
        JsonModel::Array(x) => {
            let y = b->Array_0;
            let z = c->Array_0;
            assert forall|i: int| 0 <= i < x.len() implies json_eq(#[trigger] x[i], z[i]) by {
                assert(json_eq(x[i], y[i]));
                assert(json_eq(y[i], z[i]));
                lemma_eq_transitive(x[i], y[i], z[i]);
            }
        },
        JsonModel::Object(x) => {
            let y = b->Object_0;
            let z = c->Object_0;
            assert forall|k: Seq<char>| x.dom().contains(k) implies json_eq(
                #[trigger] x[k],
                z[k],
            ) by {
                assert(json_eq(x[k], y[k]));
                assert(json_eq(y[k], z[k]));
                lemma_eq_transitive(x[k], y[k], z[k]);
            }
        },
        _ => {},
    }
}

/// Each entry of the map that a list of pairs denotes comes from a pair of
/// the list.
pub proof fn lemma_pairs_to_map_source(pairs: Seq<(Seq<char>, JsonModel)>, k: Seq<char>)
    requires
        pairs_to_map(pairs).dom().contains(k),
    ensures
        exists|i: int| 0 <= i < pairs.len() && #[trigger] pairs[i] == (k, pairs_to_map(pairs)[k]),
    decreases pairs.len(),
{
    if pairs.len() > 0 {
        if pairs.last().0 == k {
            assert(pairs[pairs.len() - 1] == (k, pairs_to_map(pairs)[k]));
        } else {
            let front = pairs.drop_last();
            lemma_pairs_to_map_source(front, k);
            let i = choose|i: int|
                0 <= i < front.len() && #[trigger] front[i] == (k, pairs_to_map(front)[k]);
            assert(pairs[i] == (k, pairs_to_map(pairs)[k]));
        }
    }
}

/// Two lists that hold the same pairs, in whatever order, denote the same
/// map, unless a key stands with two different values.
pub proof fn lemma_pairs_to_map_unordered(
    p: Seq<(Seq<char>, JsonModel)>,
    q: Seq<(Seq<char>, JsonModel)>,
)
    requires
        forall|i: int, j: int|
            0 <= i < p.len() && 0 <= j < p.len() && p[i].0 == p[j].0 ==> p[i].1 == p[j].1,
        forall|x: (Seq<char>, JsonModel)| p.contains(x) <==> q.contains(x),
    ensures
        pairs_to_map(p) == pairs_to_map(q),
{
    let m = pairs_to_map(p);
    let n = pairs_to_map(q);
    lemma_pairs_to_map_keys(p);
    lemma_pairs_to_map_keys(q);
    assert forall|k: Seq<char>| m.dom().contains(k) implies n.dom().contains(k) by {
        let i = choose|i: int| 0 <= i < p.len() && #[trigger] p[i].0 == k;
        assert(p.contains(p[i]));
        let j = choose|j: int| 0 <= j < q.len() && q[j] == p[i];
        assert(q[j].0 == k);
    }
    assert forall|k: Seq<char>| n.dom().contains(k) implies m.dom().contains(k) by {
        let j = choose|j: int| 0 <= j < q.len() && #[trigger] q[j].0 == k;
        assert(q.contains(q[j]));
        let i = choose|i: int| 0 <= i < p.len() && p[i] == q[j];
        assert(p[i].0 == k);
    }
    assert forall|k: Seq<char>| m.dom().contains(k) implies m[k] == n[k] by {
        lemma_pairs_to_map_source(p, k);
        lemma_pairs_to_map_source(q, k);
        let i = choose|i: int| 0 <= i < p.len() && #[trigger] p[i] == (k, m[k]);
        let j = choose|j: int| 0 <= j < q.len() && #[trigger] q[j] == (k, n[k]);
        assert(q.contains(q[j]));
        let i2 = choose|i2: int| 0 <= i2 < p.len() && p[i2] == q[j];
        assert(p[i].0 == p[i2].0);
    }
    assert(m =~= n);
}

/// Two braced literals that differ only in the order of their pairs build
/// to the same object, provided no key stands twice; the two objects are
/// then equal, provided they hold no NaN.
pub proof fn lemma_pair_order_is_irrelevant(
    p: Seq<(Seq<char>, Literal)>,
    q: Seq<(Seq<char>, Literal)>,
)
    requires
        forall|i: int, j: int| 0 <= i < j < p.len() ==> p[i].0 != p[j].0,
        p.to_multiset() == q.to_multiset(),
    ensures
        Literal::Object(p).value() == Literal::Object(q).value(),
        nan_free(Literal::Object(p).value()) ==> json_eq(
            Literal::Object(p).value(),
            Literal::Object(q).value(),
        ),
{
    p.to_multiset_ensures();
    q.to_multiset_ensures();
    let built_p = pairs_of(p);
    let built_q = pairs_of(q);
    assert forall|x: (Seq<char>, JsonModel)| built_p.contains(x) implies built_q.contains(x) by {
        let i = choose|i: int| 0 <= i < built_p.len() && built_p[i] == x;
        assert(p.contains(p[i]));
        assert(q.to_multiset().count(p[i]) > 0);
        assert(q.contains(p[i]));
        let j = choose|j: int| 0 <= j < q.len() && q[j] == p[i];
        assert(built_q[j] == x);
    }
    assert forall|x: (Seq<char>, JsonModel)| built_q.contains(x) implies built_p.contains(x) by {
        let j = choose|j: int| 0 <= j < built_q.len() && built_q[j] == x;
        assert(q.contains(q[j]));
        assert(p.to_multiset().count(q[j]) > 0);
        assert(p.contains(q[j]));
        let i = choose|i: int| 0 <= i < p.len() && p[i] == q[j];
        assert(built_p[i] == x);
    }
    assert forall|i: int, j: int|
        0 <= i < built_p.len() && 0 <= j < built_p.len() && built_p[i].0
            == built_p[j].0 implies built_p[i].1 == built_p[j].1 by {
        assert(built_p[i].0 == p[i].0 && built_p[j].0 == p[j].0);
        if i < j {
            assert(p[i].0 != p[j].0);
        } else if j < i {
            assert(p[j].0 != p[i].0);
        }
    }
    lemma_pairs_to_map_unordered(built_p, built_q);
    if nan_free(Literal::Object(p).value()) {
        lemma_eq_reflexive(Literal::Object(p).value());
    }
}

/// Whether no braced list in a literal, at any depth, gives a key twice.
pub open spec fn keys_once(l: Literal) -> bool
    decreases l,
{
    match l {
        Literal::Array(items) => forall|i: int|
            0 <= i < items.len() ==> keys_once(#[trigger] items[i]),
        Literal::Object(pairs) => {
            &&& forall|i: int, j: int| 0 <= i < j < pairs.len() ==> pairs[i].0 != pairs[j].0
            &&& forall|i: int| 0 <= i < pairs.len() ==> keys_once((#[trigger] pairs[i]).1)
        },
        _ => true,
    }
}

/// Whether two literals differ in nothing but the order of the pairs of
/// their braced lists, at any depth: bracketed lists agree item by item,
/// and each pair of a braced list has its key in the other list, with a
/// literal there that differs from its own in no more than this.
pub open spec fn same_but_for_pair_order(a: Literal, b: Literal) -> bool
    decreases a,
{
    match a {
        Literal::Null => b is Null,
        Literal::Value(v) => b == Literal::Value(v),
        Literal::Array(x) => b matches Literal::Array(y) && x.len() == y.len() && forall|i: int|
            0 <= i < x.len() ==> same_but_for_pair_order(#[trigger] x[i], y[i]),
        Literal::Object(p) => b matches Literal::Object(q) && p.len() == q.len() && forall|
            i: int,
        |
            0 <= i < p.len() ==> exists|j: int|
                0 <= j < q.len() && (#[trigger] q[j]).0 == (#[trigger] p[i]).0
                    && same_but_for_pair_order(p[i].1, q[j].1),
    }
}

/// Two literals that differ only in the order of the pairs of their braced
/// lists build to equal values, provided no braced list gives a key twice
/// and no number is a NaN.
pub proof fn lemma_pair_order_is_irrelevant_throughout(a: Literal, b: Literal)
    requires
        same_but_for_pair_order(a, b),
        keys_once(a),
        keys_once(b),
        nan_free(a.value()),
    ensures
        json_eq(a.value(), b.value()),
    decreases a,
{
    match a {
        Literal::Null => {},
        Literal::Value(v) => {
            lemma_eq_reflexive(v);
        },
        Literal::Array(x) => {
            let y = b->Array_0;
            let xs = a.value()->Array_0;
            let ys = values_of(y);
            assert(xs == values_of(x));
            assert forall|i: int| 0 <= i < xs.len() implies json_eq(#[trigger] xs[i], ys[i]) by {
                assert(nan_free(xs[i]));
                assert(same_but_for_pair_order(x[i], y[i]));
                assert(keys_once(x[i]) && keys_once(y[i]));
                lemma_pair_order_is_irrelevant_throughout(x[i], y[i]);
            }
        },
        Literal::Object(p) => {
            let q = b->Object_0;
            let ps = pairs_of(p);
            let qs = pairs_of(q);
            let m = a.value()->Object_0;
            let n = pairs_to_map(qs);
            assert(m == pairs_to_map(ps));
            assert(distinct_keys(ps)) by {
                assert forall|i: int, j: int| 0 <= i < j < ps.len() implies ps[i].0
                    != ps[j].0 by {
                    assert(p[i].0 != p[j].0);
                }
            }
            assert(distinct_keys(qs)) by {
                assert forall|i: int, j: int| 0 <= i < j < qs.len() implies qs[i].0
                    != qs[j].0 by {
                    assert(q[i].0 != q[j].0);
                }
            }
            lemma_pairs_to_map_keys(ps);
            lemma_pairs_to_map_keys(qs);
            lemma_pairs_to_map_len(ps);
            lemma_pairs_to_map_len(qs);
            assert forall|k: Seq<char>| #[trigger] m.dom().contains(k) implies n.dom().contains(k)
                && json_eq(m[k], n[k]) by {
                let i = choose|i: int| 0 <= i < ps.len() && #[trigger] ps[i].0 == k;
                assert(p[i].0 == k);
                let j = choose|j: int|
                    0 <= j < q.len() && (#[trigger] q[j]).0 == p[i].0 && same_but_for_pair_order(
                        p[i].1,
                        q[j].1,
                    );
                assert(qs[j].0 == k);
                lemma_pairs_to_map_value(ps, i);
                lemma_pairs_to_map_value(qs, j);
                assert(m[k] == p[i].1.value());
                assert(n[k] == q[j].1.value());
                assert(nan_free(m[k]));
                assert(keys_once(p[i].1) && keys_once(q[j].1));
                lemma_pair_order_is_irrelevant_throughout(p[i].1, q[j].1);
            }
            assert(m.dom().subset_of(n.dom()));
            vstd::set_lib::lemma_subset_equality(m.dom(), n.dom());
        },
    }
}

/// Two arrays that differ in the order of two items that are not equal are
/// not equal.
pub proof fn lemma_item_order_is_relevant(items: Seq<JsonModel>, i: int, j: int)
    requires
        0 <= i < items.len(),
        0 <= j < items.len(),
        !json_eq(items[i], items[j]),
    ensures
        !json_eq(
            JsonModel::Array(items),
            JsonModel::Array(items.update(i, items[j]).update(j, items[i])),
        ),
{
    let swapped = items.update(i, items[j]).update(j, items[i]);
    assert(swapped[j] == items[i]);
    if json_eq(JsonModel::Array(items), JsonModel::Array(swapped)) {
        assert(json_eq(items[j], swapped[j]));
        if i != j {
            assert(swapped[i] == items[j]);
            assert(json_eq(items[i], swapped[i]));
        }
    }
}


} // verus!
