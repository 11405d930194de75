//! The builder: from literal-shaped input, given as tokens, to the value it
//! builds to.

use crate::grammar::{
    lemma_literal_of, lemma_read_value_sound, literal_of, pairs_of, read_items, read_pairs,
    read_value, values_of, Literal, TokenModel,
};
use crate::model::JsonModel;
use crate::value::{entries_model, items_model, Json};
use vstd::prelude::*;

verus! {

/// One token of literal-shaped input.
#[derive(Debug)]
pub enum Token {
    /// The keyword `null`.
    Null,
    /// `[`
    OpenBracket,
    /// `]`
    CloseBracket,
    /// `{`
    OpenBrace,
    /// `}`
    CloseBrace,
    /// `:`
    Colon,
    /// `,`
    Comma,
    /// Any other single expression, already coerced to the value it stands
    /// for. Where it stands for a key, it is a `String`.
    Value(Json),
}

impl View for Token {
    type V = TokenModel;

    open spec fn view(&self) -> TokenModel {
        match self {
            Token::Null => TokenModel::Null,
            Token::OpenBracket => TokenModel::OpenBracket,
            Token::CloseBracket => TokenModel::CloseBracket,
            Token::OpenBrace => TokenModel::OpenBrace,
            Token::CloseBrace => TokenModel::CloseBrace,
            Token::Colon => TokenModel::Colon,
            Token::Comma => TokenModel::Comma,
            Token::Value(v) => TokenModel::Value(v@),
        }
    }
}

impl Token {
    /// The token of a key, or of any other text: a `String` that holds a
    /// copy of the text.
    pub fn key(name: &str) -> (r: Token)
        ensures
            r@ == TokenModel::Value(JsonModel::String(name@)),
    {
        Token::Value(Json::String(name.to_owned()))
    }
}

impl Clone for Token {
    /// A copy that owns its own value.
    fn clone(&self) -> (r: Token)
        ensures
            r@ == self@,
    {
        match self {
            Token::Null => Token::Null,
            Token::OpenBracket => Token::OpenBracket,
            Token::CloseBracket => Token::CloseBracket,
            Token::OpenBrace => Token::OpenBrace,
            Token::CloseBrace => Token::CloseBrace,
            Token::Colon => Token::Colon,
            Token::Comma => Token::Comma,
            Token::Value(v) => Token::Value(v.clone()),
        }
    }
}

/// The models of a sequence of tokens, in their order.
pub open spec fn tokens_model(tokens: Seq<Token>) -> Seq<TokenModel> {
    Seq::new(tokens.len(), |i: int| tokens[i]@)
}

/// The input is not literal-shaped: brackets or braces do not balance, a
/// pair lacks its `:` or its text key, or a comma is missing or left over.
#[derive(Debug, Clone, Copy, PartialEq, Eq, Structural)]
pub struct Malformed {}

/// Builds the literal that begins at `pos`: its value, and the position
/// after its last token.
fn build_value(tokens: &Vec<Token>, pos: usize) -> (r: Option<(Json, usize)>)
    ensures
        match read_value(tokens_model(tokens@), pos as int) {
            Some((l, end)) => r matches Some((v, e)) && v@ == l.value() && e == end,
            None => r is None,
        },
    decreases tokens.len() - pos, 1int,
{
    let ghost s = tokens_model(tokens@);
    if pos >= tokens.len() {
        return None;
    }
    match &tokens[pos] {
        Token::Null => Some((Json::Null, pos + 1)),
        Token::Value(v) => Some((v.clone(), pos + 1)),
        Token::OpenBracket => {
            if pos + 1 < tokens.len() && matches!(tokens[pos + 1], Token::CloseBracket) {
                let r = Json::array(Vec::new());
                proof {
                    assert(items_model(Seq::<Json>::empty()) =~= values_of(
                        Seq::<Literal>::empty(),
                    ));
                }
                Some((r, pos + 2))
            } else {
                match build_items(tokens, pos + 1) {
                    Some((items, end)) => Some((Json::array(items), end)),
                    None => None,
                }
            }
        },
        Token::OpenBrace => {
            if pos + 1 < tokens.len() && matches!(tokens[pos + 1], Token::CloseBrace) {
                let r = Json::object(Vec::new());
                proof {
                    assert(entries_model(Seq::<(String, Json)>::empty()) =~= pairs_of(
                        Seq::<(Seq<char>, Literal)>::empty(),
                    ));
                }
                Some((r, pos + 2))
            } else {
                match build_pairs(tokens, pos + 1) {
                    Some((pairs, end)) => Some((Json::object(pairs), end)),
                    None => None,
                }
            }
        },
        _ => None,
    }
}

/// Builds the items of an array, from its first item to its `]`: their
/// values, and the position after the `]`.
fn build_items(tokens: &Vec<Token>, start: usize) -> (r: Option<(Vec<Json>, usize)>)
    requires
        start <= tokens.len(),
    ensures
        match read_items(tokens_model(tokens@), start as int) {
            Some((lits, end)) => r matches Some((items, e)) && items_model(items@) == values_of(
                lits,
            ) && e == end,
            None => r is None,
        },
    decreases tokens.len() - start, 2int,
{
    let ghost s = tokens_model(tokens@);
    let ghost mut done: Seq<Literal> = Seq::empty();
    let mut items: Vec<Json> = Vec::new();
    let mut cur: usize = start;
    proof {
        if read_items(s, start as int) is Some {
            let (rest, end) = read_items(s, start as int).unwrap();
            assert(done + rest =~= rest);
        }
    }
    loop
        invariant
            s == tokens_model(tokens@),
            start <= cur <= tokens.len(),
            items@.len() == done.len(),
            forall|i: int| 0 <= i < done.len() ==> items@[i]@ == (#[trigger] done[i]).value(),
            read_items(s, start as int) == match read_items(s, cur as int) {
                Some((rest, end)) => Some((done + rest, end)),
                None => None,
            },
        decreases tokens.len() - cur,
    {
        match build_value(tokens, cur) {
            None => {
                return None;
            },
            Some((v, next)) => {
                let ghost l = read_value(s, cur as int).unwrap().0;
                proof {
                    lemma_read_value_sound(s, cur as int);
                }
                if next >= tokens.len() {
                    return None;
                }
                match &tokens[next] {
                    Token::CloseBracket => {
                        items.push(v);
                        proof {
                            assert(done + seq![l] =~= done.push(l));
                            assert(items_model(items@) =~= values_of(done.push(l)));
                        }
                        return Some((items, next + 1));
                    },
                    Token::Comma => {
                        items.push(v);
                        proof {
                            if read_items(s, next + 1) is Some {
                                let (rest, end) = read_items(s, next + 1).unwrap();
                                assert(done + (seq![l] + rest) =~= done.push(l) + rest);
                            }
                            done = done.push(l);
                        }
                        cur = next + 1;
                    },
                    _ => {
                        return None;
                    },
                }
            },
        }
    }
}

/// Builds the pairs of an object, from its first key to its `}`: the keys
/// with the values, and the position after the `}`.
fn build_pairs(tokens: &Vec<Token>, start: usize) -> (r: Option<(Vec<(String, Json)>, usize)>)
    requires
        start <= tokens.len(),
    ensures
        match read_pairs(tokens_model(tokens@), start as int) {
            Some((lits, end)) => r matches Some((pairs, e)) && entries_model(pairs@) == pairs_of(
                lits,
            ) && e == end,
            None => r is None,
        },
    decreases tokens.len() - start, 2int,
{
    let ghost s = tokens_model(tokens@);
    let ghost mut done: Seq<(Seq<char>, Literal)> = Seq::empty();
    let mut pairs: Vec<(String, Json)> = Vec::new();
    let mut cur: usize = start;
    proof {
        if read_pairs(s, start as int) is Some {
            let (rest, end) = read_pairs(s, start as int).unwrap();
            assert(done + rest =~= rest);
        }
    }
    loop
        invariant
            s == tokens_model(tokens@),
            start <= cur <= tokens.len(),
            pairs@.len() == done.len(),
            forall|i: int|
                0 <= i < done.len() ==> pairs@[i].0@ == (#[trigger] done[i]).0 && pairs@[i].1@
                    == done[i].1.value(),
            read_pairs(s, start as int) == match read_pairs(s, cur as int) {
                Some((rest, end)) => Some((done + rest, end)),
                None => None,
            },
        decreases tokens.len() - cur,
    {
        if tokens.len() - cur < 2 {
            return None;
        }
        let key = match &tokens[cur] {
            Token::Value(Json::String(k)) => k.clone(),
            _ => {
                return None;
            },
        };
        if !matches!(tokens[cur + 1], Token::Colon) {
            return None;
        }
        match build_value(tokens, cur + 2) {
            None => {
                return None;
            },
            Some((v, next)) => {
                let ghost l = (key@, read_value(s, cur + 2).unwrap().0);
                proof {
                    lemma_read_value_sound(s, cur + 2);
                }
                if next >= tokens.len() {
                    return None;
                }
                match &tokens[next] {
                    Token::CloseBrace => {
                        pairs.push((key, v));
                        proof {
                            assert(done + seq![l] =~= done.push(l));
                            assert(entries_model(pairs@) =~= pairs_of(done.push(l)));
                        }
                        return Some((pairs, next + 1));
                    },
                    Token::Comma => {
                        pairs.push((key, v));
                        proof {
                            if read_pairs(s, next + 1) is Some {
                                let (rest, end) = read_pairs(s, next + 1).unwrap();
                                assert(done + (seq![l] + rest) =~= done.push(l) + rest);
                            }
                            done = done.push(l);
                        }
                        cur = next + 1;
                    },
                    _ => {
                        return None;
                    },
                }
            },
        }
    }
}

/// Builds the value that literal-shaped input stands for. The input is
/// accepted exactly when it writes a literal down, from its first token to
/// its last; it then builds to the value of that literal, nested literals
/// first. Any other input is refused as malformed, and nothing is built.
pub fn build(tokens: &Vec<Token>) -> (r: Result<Json, Malformed>)
    ensures
        match literal_of(tokens_model(tokens@)) {
            Some(l) => r matches Ok(v) && v@ == l.value(),
            None => r is Err,
        },
{
    proof {
        lemma_literal_of(tokens_model(tokens@));
    }
    match build_value(tokens, 0) {
        Some((v, end)) => if end == tokens.len() {
            Ok(v)
        } else {
            Err(Malformed {  })
        },
        None => Err(Malformed {  }),
    }
}

} // verus!
