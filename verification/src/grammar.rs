//! The grammar of literal-shaped input: what a literal is, the tokens that
//! write it down, the value it builds to, and how a token sequence is read
//! back into the one literal it writes.

use crate::model::{pairs_to_map, JsonModel};
use vstd::prelude::*;

verus! {

/// The model of one token of literal-shaped input.
pub enum TokenModel {
    /// The keyword `null`.
    Null,
    /// `[`
    OpenBracket,
    /// `]`
    CloseBracket,
    /// `{`
    OpenBrace,
    /// `}`
    CloseBrace,
    /// `:`
    Colon,
    /// `,`
    Comma,
    /// Any other single expression, already coerced to the value it stands
    /// for. Where it stands for a key, it is a `String`.
    Value(JsonModel),
}

/// A literal: the nested structure that literal-shaped input writes down.
pub enum Literal {
    /// The keyword `null`.
    Null,
    /// A single expression, standing for its value.
    Value(JsonModel),
    /// A bracketed list of literals.
    Array(Seq<Literal>),
    /// A braced list of `key: literal` pairs.
    Object(Seq<(Seq<char>, Literal)>),
}

/// The values that the literals of a list build to, in their order.
pub open spec fn values_of(items: Seq<Literal>) -> Seq<JsonModel>
    decreases items,
{
    Seq::new(
        items.len(),
        |i: int|
            if 0 <= i < items.len() {
                items[i].value()
            } else {
                JsonModel::Null
            },
    )
}

/// The `key: value` pairs that a list of `key: literal` pairs builds to, in
/// their order.
pub open spec fn pairs_of(pairs: Seq<(Seq<char>, Literal)>) -> Seq<(Seq<char>, JsonModel)>
    decreases pairs,
{
    Seq::new(
        pairs.len(),
        |i: int|
            if 0 <= i < pairs.len() {
                (pairs[i].0, pairs[i].1.value())
            } else {
                (Seq::empty(), JsonModel::Null)
            },
    )
}

/// The tokens of a list of literals: those of each literal, with a comma
/// between two neighbours and none at either end.
pub open spec fn items_tokens(items: Seq<Literal>) -> Seq<TokenModel>
    decreases items,
{
    if items.len() == 0 {
        Seq::empty()
    } else if items.len() == 1 {
        items[0].tokens()
    } else {
        items[0].tokens() + seq![TokenModel::Comma] + items_tokens(items.skip(1))
    }
}

/// The tokens of one `key: literal` pair.
pub open spec fn pair_tokens(pair: (Seq<char>, Literal)) -> Seq<TokenModel>
    decreases pair,
{
    seq![TokenModel::Value(JsonModel::String(pair.0)), TokenModel::Colon] + pair.1.tokens()
}

/// The tokens of a list of pairs: those of each pair, with a comma between
/// two neighbours and none at either end.
pub open spec fn pairs_tokens(pairs: Seq<(Seq<char>, Literal)>) -> Seq<TokenModel>
    decreases pairs,
{
    if pairs.len() == 0 {
        Seq::empty()
    } else if pairs.len() == 1 {
        pair_tokens(pairs[0])
    } else {
        pair_tokens(pairs[0]) + seq![TokenModel::Comma] + pairs_tokens(pairs.skip(1))
    }
}

impl Literal {
    /// The value that a literal builds to. `null` builds to `Null`, a single
    /// expression to its value, a bracketed list to the array of what its
    /// items build to, and a braced list to the object of its pairs, a
    /// later pair replacing an earlier one that has the same key.
    pub open spec fn value(self) -> JsonModel
        decreases self,
    {
        match self {
            Literal::Null => JsonModel::Null,
            Literal::Value(v) => v,
            Literal::Array(items) => JsonModel::Array(values_of(items)),
            Literal::Object(pairs) => JsonModel::Object(pairs_to_map(pairs_of(pairs))),
        }
    }

    /// The tokens that write a literal down.
    pub open spec fn tokens(self) -> Seq<TokenModel>
        decreases self,
    {
        match self {
            Literal::Null => seq![TokenModel::Null],
            Literal::Value(v) => seq![TokenModel::Value(v)],
            Literal::Array(items) => seq![TokenModel::OpenBracket] + items_tokens(items)
                + seq![TokenModel::CloseBracket],
            Literal::Object(pairs) => seq![TokenModel::OpenBrace] + pairs_tokens(pairs)
                + seq![TokenModel::CloseBrace],
        }
    }
}

/// The literal that a token sequence writes down, if it writes one.
pub open spec fn literal_of(tokens: Seq<TokenModel>) -> Option<Literal> {
    if exists|l: Literal| l.tokens() == tokens {
        Some(choose|l: Literal| l.tokens() == tokens)
    } else {
        None
    }
}

/// Whether a literal may begin with a token.
pub open spec fn opens_literal(t: TokenModel) -> bool {
    t is Null || t is Value || t is OpenBracket || t is OpenBrace
}

/// Reads one literal that begins at `pos`: the literal, and the position
/// after its last token.
pub open spec fn read_value(s: Seq<TokenModel>, pos: int) -> Option<(Literal, int)>
    decreases s.len() - pos, 1int,
{
    if pos < 0 || pos >= s.len() {
        None
    } else {
        match s[pos] {
            TokenModel::Null => Some((Literal::Null, pos + 1)),
            TokenModel::Value(v) => Some((Literal::Value(v), pos + 1)),
            TokenModel::OpenBracket => if pos + 1 < s.len() && s[pos + 1] is CloseBracket {
                Some((Literal::Array(Seq::empty()), pos + 2))
            } else {
                match read_items(s, pos + 1) {
                    Some((items, end)) => Some((Literal::Array(items), end)),
                    None => None,
                }
            },
            TokenModel::OpenBrace => if pos + 1 < s.len() && s[pos + 1] is CloseBrace {
                Some((Literal::Object(Seq::empty()), pos + 2))
            } else {
                match read_pairs(s, pos + 1) {
                    Some((pairs, end)) => Some((Literal::Object(pairs), end)),
                    None => None,
                }
            },
            _ => None,
        }
    }
}

/// Reads one or more literals separated by commas and closed by `]`: the
/// literals, and the position after the `]`.
pub open spec fn read_items(s: Seq<TokenModel>, pos: int) -> Option<(Seq<Literal>, int)>
    decreases s.len() - pos, 2int,
{
    match read_value(s, pos) {
        None => None,
        Some((item, next)) => if next <= pos || next >= s.len() {
            None
        } else if s[next] is CloseBracket {
            Some((seq![item], next + 1))
        } else if s[next] is Comma {
            match read_items(s, next + 1) {
                Some((rest, end)) => Some((seq![item] + rest, end)),
                None => None,
            }
        } else {
            None
        },
    }
}

/// Reads one or more `key: literal` pairs separated by commas and closed by
/// `}`: the pairs, and the position after the `}`.
pub open spec fn read_pairs(s: Seq<TokenModel>, pos: int) -> Option<
    (Seq<(Seq<char>, Literal)>, int),
>
    decreases s.len() - pos, 2int,
{
    if pos < 0 || pos + 1 >= s.len() {
        None
    } else {
        match (s[pos], s[pos + 1]) {
            (TokenModel::Value(JsonModel::String(key)), TokenModel::Colon) => match read_value(
                s,
                pos + 2,
            ) {
                None => None,
                Some((item, next)) => if next <= pos || next >= s.len() {
                    None
                } else if s[next] is CloseBrace {
                    Some((seq![(key, item)], next + 1))
                } else if s[next] is Comma {
                    match read_pairs(s, next + 1) {
                        Some((rest, end)) => Some((seq![(key, item)] + rest, end)),
                        None => None,
                    }
                } else {
                    None
                },
            },
            _ => None,
        }
    }
}

/// A literal has tokens, and the first of them is one that opens a literal.
pub proof fn lemma_tokens_open(l: Literal)
    ensures
        l.tokens().len() > 0,
        opens_literal(l.tokens()[0]),
{
}

/// What `read_value` reads was written there: the tokens from `pos` up to
/// the position it returns are those of the literal it returns.
pub proof fn lemma_read_value_sound(s: Seq<TokenModel>, pos: int)
    requires
        read_value(s, pos) is Some,
    ensures
        ({
            let (l, end) = read_value(s, pos).unwrap();
            0 <= pos < end <= s.len() && s.subrange(pos, end) == l.tokens()
        }),
    decreases s.len() - pos, 1int,
{
    let (l, end) = read_value(s, pos).unwrap();
    match s[pos] {
        TokenModel::Null => {
            assert(s.subrange(pos, end) =~= l.tokens());
        },
        TokenModel::Value(v) => {
            assert(s.subrange(pos, end) =~= l.tokens());
        },
        TokenModel::OpenBracket => {
            if pos + 1 < s.len() && s[pos + 1] is CloseBracket {
                assert(items_tokens(Seq::<Literal>::empty()) =~= Seq::<TokenModel>::empty());
                assert(s.subrange(pos, end) =~= l.tokens());
            } else {
                lemma_read_items_sound(s, pos + 1);
                let items = read_items(s, pos + 1).unwrap().0;
                assert(s.subrange(pos, end) =~= seq![TokenModel::OpenBracket] + s.subrange(
                    pos + 1,
                    end,
                ));
                assert(s.subrange(pos, end) =~= l.tokens());
            }
        },
        TokenModel::OpenBrace => {
            if pos + 1 < s.len() && s[pos + 1] is CloseBrace {
                assert(pairs_tokens(Seq::<(Seq<char>, Literal)>::empty()) =~= Seq::<
                    TokenModel,
                >::empty());
                assert(s.subrange(pos, end) =~= l.tokens());
            } else {
                lemma_read_pairs_sound(s, pos + 1);
                assert(s.subrange(pos, end) =~= seq![TokenModel::OpenBrace] + s.subrange(
                    pos + 1,
                    end,
                ));
                assert(s.subrange(pos, end) =~= l.tokens());
            }
        },
        _ => {},
    }
}

/// What `read_items` reads was written there: at least one literal, whose
/// tokens, followed by `]`, are those from `pos` up to the position it
/// returns.
pub proof fn lemma_read_items_sound(s: Seq<TokenModel>, pos: int)
    requires
        read_items(s, pos) is Some,
    ensures
        ({
            let (items, end) = read_items(s, pos).unwrap();
            &&& items.len() > 0
            &&& 0 <= pos < end <= s.len()
            &&& s.subrange(pos, end) == items_tokens(items) + seq![TokenModel::CloseBracket]
        }),
    decreases s.len() - pos, 2int,
{
    let (items, end) = read_items(s, pos).unwrap();
    lemma_read_value_sound(s, pos);
    let (item, next) = read_value(s, pos).unwrap();
    if s[next] is CloseBracket {
        assert(s.subrange(pos, end) =~= s.subrange(pos, next) + seq![TokenModel::CloseBracket]);
    } else {
        lemma_read_items_sound(s, next + 1);
        let rest = read_items(s, next + 1).unwrap().0;
        assert(items.skip(1) =~= rest);
        assert(s.subrange(pos, end) =~= s.subrange(pos, next) + seq![TokenModel::Comma]
            + s.subrange(next + 1, end));
        assert(s.subrange(pos, end) =~= items_tokens(items) + seq![TokenModel::CloseBracket]);
    }
}

/// What `read_pairs` reads was written there: at least one pair, whose
/// tokens, followed by `}`, are those from `pos` up to the position it
/// returns.
pub proof fn lemma_read_pairs_sound(s: Seq<TokenModel>, pos: int)
    requires
        read_pairs(s, pos) is Some,
    ensures
        ({
            let (pairs, end) = read_pairs(s, pos).unwrap();
            &&& pairs.len() > 0
            &&& 0 <= pos < end <= s.len()
            &&& s.subrange(pos, end) == pairs_tokens(pairs) + seq![TokenModel::CloseBrace]
        }),
    decreases s.len() - pos, 2int,
{
    let (pairs, end) = read_pairs(s, pos).unwrap();
    lemma_read_value_sound(s, pos + 2);
    let (item, next) = read_value(s, pos + 2).unwrap();
    let key = s[pos]->Value_0->String_0;
    assert(s.subrange(pos, next) =~= pair_tokens((key, item)));
    if s[next] is CloseBrace {
        assert(s.subrange(pos, end) =~= s.subrange(pos, next) + seq![TokenModel::CloseBrace]);
    } else {
        lemma_read_pairs_sound(s, next + 1);
        let rest = read_pairs(s, next + 1).unwrap().0;
        assert(pairs.skip(1) =~= rest);
        assert(s.subrange(pos, end) =~= s.subrange(pos, next) + seq![TokenModel::Comma]
            + s.subrange(next + 1, end));
        assert(s.subrange(pos, end) =~= pairs_tokens(pairs) + seq![TokenModel::CloseBrace]);
    }
}

/// Where the tokens of a literal stand at `pos`, `read_value` reads that
/// literal there, whatever follows it.
pub proof fn lemma_read_value_complete(l: Literal, s: Seq<TokenModel>, pos: int)
    requires
        0 <= pos,
        pos + l.tokens().len() <= s.len(),
        s.subrange(pos, pos + l.tokens().len()) == l.tokens(),
    ensures
        read_value(s, pos) == Some((l, pos + l.tokens().len())),
    decreases l,
{
    let written = l.tokens();
    assert(s[pos] == s.subrange(pos, pos + written.len())[0]);
    match l {
        Literal::Null => {},
        Literal::Value(v) => {},
        Literal::Array(items) => {
            let inner = items_tokens(items);
            assert(s[pos + 1] == s.subrange(pos, pos + written.len())[1]);
            if items.len() == 0 {
                assert(items =~= Seq::<Literal>::empty());
            } else {
                lemma_items_tokens_open(items);
                assert(written[1] == inner[0]);
                assert(s.subrange(pos + 1, pos + 1 + inner.len()) =~= inner) by {
                    assert forall|i: int| 0 <= i < inner.len() implies s[pos + 1 + i]
                        == inner[i] by {
                        assert(s[pos + 1 + i] == s.subrange(pos, pos + written.len())[1 + i]);
                    }
                }
                assert(s[pos + 1 + inner.len()] == s.subrange(pos, pos + written.len())[1int
                    + inner.len()]);
                lemma_read_items_complete(items, s, pos + 1);
            }
        },
        Literal::Object(pairs) => {
            let inner = pairs_tokens(pairs);
            assert(s[pos + 1] == s.subrange(pos, pos + written.len())[1]);
            if pairs.len() == 0 {
                assert(pairs =~= Seq::<(Seq<char>, Literal)>::empty());
            } else {
                lemma_pairs_tokens_open(pairs);
                assert(written[1] == inner[0]);
                assert(s.subrange(pos + 1, pos + 1 + inner.len()) =~= inner) by {
                    assert forall|i: int| 0 <= i < inner.len() implies s[pos + 1 + i]
                        == inner[i] by {
                        assert(s[pos + 1 + i] == s.subrange(pos, pos + written.len())[1 + i]);
                    }
                }
                assert(s[pos + 1 + inner.len()] == s.subrange(pos, pos + written.len())[1int
                    + inner.len()]);
                lemma_read_pairs_complete(pairs, s, pos + 1);
            }
        },
    }
}

/// The tokens of a list that is not empty begin with a token that opens a
/// literal.
pub proof fn lemma_items_tokens_open(items: Seq<Literal>)
    requires
        items.len() > 0,
    ensures
        items_tokens(items).len() > 0,
        opens_literal(items_tokens(items)[0]),
{
    lemma_tokens_open(items[0]);
}

/// The tokens of a list of pairs that is not empty begin with a key.
pub proof fn lemma_pairs_tokens_open(pairs: Seq<(Seq<char>, Literal)>)
    requires
        pairs.len() > 0,
    ensures
        pairs_tokens(pairs).len() > 0,
        pairs_tokens(pairs)[0] == TokenModel::Value(JsonModel::String(pairs[0].0)),
{
    let first = pair_tokens(pairs[0]);
    assert(first[0] == TokenModel::Value(JsonModel::String(pairs[0].0)));
}

/// Where the tokens of a list that is not empty stand at `pos`, followed by
/// `]`, `read_items` reads that list there.
pub proof fn lemma_read_items_complete(items: Seq<Literal>, s: Seq<TokenModel>, pos: int)
    requires
        items.len() > 0,
        0 <= pos,
        pos + items_tokens(items).len() < s.len(),
        s.subrange(pos, pos + items_tokens(items).len()) == items_tokens(items),
        s[pos + items_tokens(items).len()] is CloseBracket,
    ensures
        read_items(s, pos) == Some((items, pos + items_tokens(items).len() + 1)),
    decreases items,
{
    let written = items_tokens(items);
    let first = items[0].tokens();
    lemma_tokens_open(items[0]);
    assert(s.subrange(pos, pos + first.len()) =~= first) by {
        assert forall|i: int| 0 <= i < first.len() implies s[pos + i] == first[i] by {
            assert(s[pos + i] == s.subrange(pos, pos + written.len())[i]);
        }
    }
    lemma_read_value_complete(items[0], s, pos);
    let next = pos + first.len();
    if items.len() == 1 {
        assert(seq![items[0]] =~= items);
    } else {
        let rest = items.skip(1);
        let after = items_tokens(rest);
        assert(s[next] == s.subrange(pos, pos + written.len())[first.len() as int]);
        assert(s.subrange(next + 1, next + 1 + after.len()) =~= after) by {
            assert forall|i: int| 0 <= i < after.len() implies s[next + 1 + i] == after[i] by {
                assert(s[next + 1 + i] == s.subrange(pos, pos + written.len())[first.len() + 1
                    + i]);
            }
        }
        lemma_read_items_complete(rest, s, next + 1);
        assert(seq![items[0]] + rest =~= items);
    }
}

/// Where the tokens of a list of pairs that is not empty stand at `pos`,
/// followed by `}`, `read_pairs` reads that list there.
pub proof fn lemma_read_pairs_complete(
    pairs: Seq<(Seq<char>, Literal)>,
    s: Seq<TokenModel>,
    pos: int,
)
    requires
        pairs.len() > 0,
        0 <= pos,
        pos + pairs_tokens(pairs).len() < s.len(),
        s.subrange(pos, pos + pairs_tokens(pairs).len()) == pairs_tokens(pairs),
        s[pos + pairs_tokens(pairs).len()] is CloseBrace,
    ensures
        read_pairs(s, pos) == Some((pairs, pos + pairs_tokens(pairs).len() + 1)),
    decreases pairs,
{
    let written = pairs_tokens(pairs);
    let first = pair_tokens(pairs[0]);
    let inner = pairs[0].1.tokens();
    lemma_tokens_open(pairs[0].1);
    assert(s[pos] == s.subrange(pos, pos + written.len())[0]);
    assert(s[pos + 1] == s.subrange(pos, pos + written.len())[1]);
    assert(s.subrange(pos + 2, pos + 2 + inner.len()) =~= inner) by {
        assert forall|i: int| 0 <= i < inner.len() implies s[pos + 2 + i] == inner[i] by {
            assert(s[pos + 2 + i] == s.subrange(pos, pos + written.len())[2 + i]);
        }
    }
    lemma_read_value_complete(pairs[0].1, s, pos + 2);
    let next = pos + first.len();
    if pairs.len() == 1 {
        assert(seq![pairs[0]] =~= pairs);
    } else {
        let rest = pairs.skip(1);
        let after = pairs_tokens(rest);
        assert(s[next] == s.subrange(pos, pos + written.len())[first.len() as int]);
        assert(s.subrange(next + 1, next + 1 + after.len()) =~= after) by {
            assert forall|i: int| 0 <= i < after.len() implies s[next + 1 + i] == after[i] by {
                assert(s[next + 1 + i] == s.subrange(pos, pos + written.len())[first.len() + 1
                    + i]);
            }
        }
        lemma_read_pairs_complete(rest, s, next + 1);
        assert(seq![pairs[0]] + rest =~= pairs);
    }
}

/// A token sequence writes at most one literal: the one that `read_value`
/// reads from its start to its end.
pub proof fn lemma_literal_of(tokens: Seq<TokenModel>)
    ensures
        literal_of(tokens) == match read_value(tokens, 0) {
            Some((l, end)) => if end == tokens.len() {
                Some(l)
            } else {
                None
            },
            None => None,
        },
{
    if exists|l: Literal| l.tokens() == tokens {
        let l = choose|l: Literal| l.tokens() == tokens;
        assert(tokens.subrange(0, tokens.len() as int) =~= tokens);
        lemma_read_value_complete(l, tokens, 0);
    } else {
        if read_value(tokens, 0) is Some {
            let (l, end) = read_value(tokens, 0).unwrap();
            lemma_read_value_sound(tokens, 0);
            if end == tokens.len() {
                assert(tokens.subrange(0, tokens.len() as int) =~= tokens);
                assert(l.tokens() == tokens);
            }
        }
    }
}

/// Writing a literal down and reading the tokens back gives the literal:
/// no two literals are written by the same tokens.
pub proof fn lemma_literal_of_tokens(l: Literal)
    ensures
        literal_of(l.tokens()) == Some(l),
{
    let tokens = l.tokens();
    assert(tokens.subrange(0, tokens.len() as int) =~= tokens);
    lemma_read_value_complete(l, tokens, 0);
    lemma_literal_of(tokens);
}

} // verus!
