use json_value::builder::{build, Malformed, Token};
use json_value::number::Double;
use json_value::value::Json;

fn text(s: &str) -> Token {
    Token::Value(Json::from(s))
}

fn float(x: f64) -> Token {
    Token::Value(Json::from(Double::from_bits(x.to_bits())))
}

fn as_f64(n: &Double) -> f64 {
    f64::from_bits(n.to_bits())
}

#[test]
fn test_null_json() {
    let res = build(&vec![Token::Null]);
    assert_eq!(res, Ok(Json::Null));
}

#[test]
fn test_empty_object() {
    let res = build(&vec![Token::OpenBrace, Token::CloseBrace]);
    match res {
        Ok(Json::Object(a)) => {
            assert_eq!(a.len(), 0 as usize)
        }
        _ => assert!(false),
    }
}

#[test]
fn test_single_element_object() {
    let res = build(&vec![
        Token::OpenBrace,
        text("test"),
        Token::Colon,
        Token::Value(Json::from(1)),
        Token::CloseBrace,
    ]);
    match res {
        Ok(Json::Object(a)) => {
            assert_eq!(a.len(), 1 as usize);
            let elements = a;
            let el1 = elements.get("test");
            match el1 {
                Some(x) => match x {
                    Json::Number(v) => assert_eq!(as_f64(v), 1.0_f64),
                    _ => assert!(false),
                },
                _ => assert!(false),
            }
        }
        _ => assert!(false),
    }
}

#[test]
fn test_single_element_object_boolean() {
    let res = build(&vec![
        Token::OpenBrace,
        text("test"),
        Token::Colon,
        Token::Value(Json::from(false)),
        Token::CloseBrace,
    ]);
    match res {
        Ok(Json::Object(a)) => {
            assert_eq!(a.len(), 1 as usize);
            let elements = a;
            let el1 = elements.get("test");
            match el1 {
                Some(x) => match x {
                    Json::Boolean(v) => assert_eq!(v, &false),
                    _ => assert!(false),
                },
                _ => assert!(false),
            }
        }
        _ => assert!(false),
    }
}

#[test]
fn test_single_element_object_string() {
    let res = build(&vec![
        Token::OpenBrace,
        text("test"),
        Token::Colon,
        text("yes"),
        Token::CloseBrace,
    ]);
    match res {
        Ok(Json::Object(a)) => {
            assert_eq!(a.len(), 1 as usize);
            let elements = a;
            let el1 = elements.get("test");
            match el1 {
                Some(x) => match x {
                    Json::String(v) => assert_eq!(v, &"yes"),
                    _ => assert!(false),
                },
                _ => assert!(false),
            }
        }
        _ => assert!(false),
    }
}

#[test]
fn test_single_element_object_array() {
    let res = build(&vec![
        Token::OpenBrace,
        text("test"),
        Token::Colon,
        Token::OpenBracket,
        text("yes"),
        Token::CloseBracket,
        Token::CloseBrace,
    ]);
    match res {
        Ok(Json::Object(a)) => {
            assert_eq!(a.len(), 1 as usize);
            let elements = a;
            let el1 = elements.get("test");
            match el1 {
                Some(x) => match x {
                    Json::Array(v) => {
                        assert_eq!((*v).len(), 1);
                        match v.first() {
                            Some(e) => assert_eq!(e, &Json::String("yes".to_string())),
                            _ => assert!(false),
                        }
                    }
                    _ => assert!(false),
                },
                _ => assert!(false),
            }
        }
        _ => assert!(false),
    }
}

#[test]
fn test_single_element_object_object() {
    let res = build(&vec![
        Token::OpenBrace,
        text("test"),
        Token::Colon,
        Token::OpenBrace,
        text("tall"),
        Token::Colon,
        float(1.0),
        Token::CloseBrace,
        Token::CloseBrace,
    ]);
    match res {
        Ok(Json::Object(a)) => {
            assert_eq!(a.len(), 1 as usize);
            let elements = a;
            let el1 = elements.get("test");
            match el1 {
                Some(x) => match x {
                    Json::Object(v) => {
                        assert_eq!((*v).len(), 1);
                        match v.get("tall") {
                            Some(e) => assert_eq!(
                                e,
                                &Json::Number(Double::from_bits(1.0_f64.to_bits()))
                            ),
                            _ => assert!(false),
                        }
                    }
                    _ => assert!(false),
                },
                _ => assert!(false),
            }
        }
        _ => assert!(false),
    }
}

#[test]
fn null_builds_to_null_only() {
    let built = build(&vec![Token::Null]).unwrap();
    assert!(built.is_null());
    assert!(matches!(built, Json::Null));
    assert_eq!(built.as_boolean(), None);
    assert!(built.as_number().is_none());
    assert!(built.as_str().is_none());
    assert!(built.as_array().is_none());
    assert!(built.as_object().is_none());
}

#[test]
fn empty_array_has_no_items() {
    let built = build(&vec![Token::OpenBracket, Token::CloseBracket]).unwrap();
    match built {
        Json::Array(items) => assert_eq!(items.len(), 0),
        _ => panic!("an array was expected"),
    }
}

#[test]
fn array_keeps_the_order_of_its_items() {
    let built = build(&vec![
        Token::OpenBracket,
        Token::Value(Json::from(1)),
        Token::Comma,
        Token::Null,
        Token::Comma,
        text("x"),
        Token::CloseBracket,
    ])
    .unwrap();
    let items = built.as_array().unwrap();
    assert_eq!(items.len(), 3);
    assert_eq!(as_f64(&items[0].as_number().unwrap()), 1.0);
    assert!(items[1].is_null());
    assert_eq!(items[2].as_str(), Some("x"));
}

#[test]
fn one_element_list_is_an_array_not_a_scalar() {
    let built = build(&vec![Token::OpenBracket, Token::Value(Json::from(true)), Token::CloseBracket])
        .unwrap();
    assert_eq!(built.as_boolean(), None);
    assert_eq!(built, Json::Array(vec![Json::Boolean(true)]));
}

#[test]
fn repeated_key_keeps_the_later_value() {
    let built = build(&vec![
        Token::OpenBrace,
        text("k"),
        Token::Colon,
        Token::Value(Json::from(1)),
        Token::Comma,
        text("k"),
        Token::Colon,
        Token::Value(Json::from(2)),
        Token::CloseBrace,
    ])
    .unwrap();
    let object = built.as_object().unwrap();
    assert_eq!(object.len(), 1);
    assert_eq!(object.get("k"), Some(&Json::from(2)));
    assert_ne!(object.get("k"), Some(&Json::from(1)));
}

#[test]
fn pair_order_does_not_matter_and_item_order_does() {
    let ab = build(&vec![
        Token::OpenBrace,
        text("a"),
        Token::Colon,
        Token::Value(Json::from(1)),
        Token::Comma,
        text("b"),
        Token::Colon,
        Token::OpenBracket,
        Token::Null,
        Token::CloseBracket,
        Token::CloseBrace,
    ])
    .unwrap();
    let ba = build(&vec![
        Token::OpenBrace,
        text("b"),
        Token::Colon,
        Token::OpenBracket,
        Token::Null,
        Token::CloseBracket,
        Token::Comma,
        text("a"),
        Token::Colon,
        Token::Value(Json::from(1)),
        Token::CloseBrace,
    ])
    .unwrap();
    assert_eq!(ab, ba);
    assert_eq!(ba, ab);

    let one_two = build(&vec![
        Token::OpenBracket,
        Token::Value(Json::from(1)),
        Token::Comma,
        Token::Value(Json::from(2)),
        Token::CloseBracket,
    ])
    .unwrap();
    let two_one = build(&vec![
        Token::OpenBracket,
        Token::Value(Json::from(2)),
        Token::Comma,
        Token::Value(Json::from(1)),
        Token::CloseBracket,
    ])
    .unwrap();
    assert_ne!(one_two, two_one);
    assert_eq!(one_two, one_two.clone());
}

#[test]
fn nested_description_builds_as_written() {
    let width = 100;
    let built = build(&vec![
        Token::OpenBrace,
        text("width"),
        Token::Colon,
        Token::Value(Json::from(width)),
        Token::Comma,
        text("height"),
        Token::Colon,
        float(480.0),
        Token::Comma,
        text("elements"),
        Token::Colon,
        Token::OpenBracket,
        Token::Value(Json::from(1)),
        Token::Comma,
        Token::Value(Json::from(2)),
        Token::Comma,
        Token::Value(Json::from(3)),
        Token::Comma,
        Token::Value(Json::from(43)),
        Token::Comma,
        Token::Value(Json::from(5)),
        Token::CloseBracket,
        Token::Comma,
        text("dummy"),
        Token::Colon,
        Token::OpenBrace,
        text("overview"),
        Token::Colon,
        Token::Value(Json::from(true)),
        Token::CloseBrace,
        Token::CloseBrace,
    ])
    .unwrap();
    let object = built.as_object().unwrap();
    assert_eq!(object.len(), 4);
    assert_eq!(as_f64(&object.get("width").unwrap().as_number().unwrap()), 100.0);
    assert_eq!(as_f64(&object.get("height").unwrap().as_number().unwrap()), 480.0);
    let elements = object.get("elements").unwrap().as_array().unwrap();
    let numbers: Vec<f64> = elements.iter().map(|e| as_f64(&e.as_number().unwrap())).collect();
    assert_eq!(numbers, vec![1.0, 2.0, 3.0, 43.0, 5.0]);
    let dummy = object.get("dummy").unwrap().as_object().unwrap();
    assert_eq!(dummy.len(), 1);
    assert_eq!(dummy.get("overview"), Some(&Json::Boolean(true)));
    assert!(object.get("missing").is_none());
    assert!(!object.contains_key("missing"));
    assert!(object.contains_key("dummy"));
}

#[test]
fn a_value_token_may_hold_any_value() {
    let inner = Json::Array(vec![Json::Null, Json::from(7)]);
    let built = build(&vec![Token::Value(inner.clone())]).unwrap();
    assert_eq!(built, inner);
}

#[test]
fn malformed_input_is_refused() {
    let bad: Vec<Vec<Token>> = vec![
        vec![],
        vec![Token::OpenBracket],
        vec![Token::CloseBracket],
        vec![Token::OpenBrace],
        vec![Token::CloseBrace],
        vec![Token::Comma],
        vec![Token::Colon],
        vec![Token::Null, Token::Null],
        vec![Token::OpenBracket, Token::CloseBrace],
        vec![Token::OpenBrace, Token::CloseBracket],
        vec![Token::OpenBracket, Token::Null, Token::Comma, Token::CloseBracket],
        vec![Token::OpenBracket, Token::Comma, Token::Null, Token::CloseBracket],
        vec![Token::OpenBracket, Token::Null, Token::Null, Token::CloseBracket],
        vec![Token::OpenBracket, Token::Null, Token::CloseBracket, Token::CloseBracket],
        vec![Token::OpenBracket, Token::OpenBracket, Token::Null, Token::CloseBracket],
        vec![Token::OpenBrace, text("k"), Token::Null, Token::CloseBrace],
        vec![Token::OpenBrace, text("k"), Token::Colon, Token::CloseBrace],
        vec![Token::OpenBrace, text("k"), Token::Colon, Token::Null],
        vec![Token::OpenBrace, text("k"), Token::Colon, Token::Null, Token::Comma, Token::CloseBrace],
        vec![Token::OpenBrace, Token::Null, Token::Colon, Token::Null, Token::CloseBrace],
        vec![
            Token::OpenBrace,
            Token::Value(Json::from(1)),
            Token::Colon,
            Token::Null,
            Token::CloseBrace,
        ],
        vec![
            Token::OpenBrace,
            text("a"),
            Token::Colon,
            Token::Null,
            text("b"),
            Token::Colon,
            Token::Null,
            Token::CloseBrace,
        ],
        vec![Token::OpenBrace, text("k"), Token::Colon, Token::Null, Token::CloseBracket],
    ];
    for tokens in bad {
        assert_eq!(build(&tokens), Err(Malformed {}), "for {:?}", tokens);
    }
}

#[test]
fn deep_nesting_builds() {
    let depth = 200;
    let mut tokens: Vec<Token> = Vec::new();
    for _ in 0..depth {
        tokens.push(Token::OpenBracket);
    }
    tokens.push(Token::Null);
    for _ in 0..depth {
        tokens.push(Token::CloseBracket);
    }
    let mut value = build(&tokens).unwrap();
    for _ in 0..depth {
        let items = match value {
            Json::Array(items) => items,
            _ => panic!("an array was expected"),
        };
        assert_eq!(items.len(), 1);
        value = items.into_iter().next().unwrap();
    }
    assert!(value.is_null());
    tokens.pop();
    assert_eq!(build(&tokens), Err(Malformed {}));
}

#[test]
fn key_token_holds_a_copy_of_the_text() {
    let name = String::from("width");
    let token = Token::key(&name);
    match &token {
        Token::Value(Json::String(held)) => assert_eq!(held, "width"),
        _ => panic!("a text value was expected"),
    }
    let built = build(&vec![
        Token::OpenBrace,
        token.clone(),
        Token::Colon,
        Token::Null,
        Token::CloseBrace,
    ])
    .unwrap();
    assert!(built.as_object().unwrap().get("width").unwrap().is_null());
    assert_eq!(build(&vec![token]).unwrap(), Json::from("width"));
}
