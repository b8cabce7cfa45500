//! Edge cases of the byte-level JSON reader used for manifests, indexes,
//! and request lines.

use context_engine::jsonp::{parse_json, Json};

fn parse(s: &str) -> Result<Json, ()> {
    parse_json(s.as_bytes())
}

fn as_str(j: &Json) -> &[u8] {
    match j {
        Json::Str(v) => v.as_slice(),
        _ => panic!("expected a string"),
    }
}

#[test]
fn parses_scalars() {
    assert!(matches!(parse("null"), Ok(Json::Null)));
    assert!(matches!(parse("true"), Ok(Json::Bool(true))));
    assert!(matches!(parse("false"), Ok(Json::Bool(false))));
    match parse("42").unwrap() {
        Json::Num { neg, mag, raw } => {
            assert!(!neg);
            assert_eq!(mag, Some(42));
            assert_eq!(raw, b"42".to_vec());
        },
        _ => panic!("expected a number"),
    }
    match parse("-7").unwrap() {
        Json::Num { neg, mag, .. } => {
            assert!(neg);
            assert_eq!(mag, Some(7));
        },
        _ => panic!("expected a number"),
    }
}

#[test]
fn fractional_and_exponent_numbers_keep_raw_but_no_magnitude() {
    match parse("1.5").unwrap() {
        Json::Num { mag, raw, .. } => {
            assert_eq!(mag, None);
            assert_eq!(raw, b"1.5".to_vec());
        },
        _ => panic!("expected a number"),
    }
    match parse("1e3").unwrap() {
        Json::Num { mag, .. } => assert_eq!(mag, None),
        _ => panic!("expected a number"),
    }
    // Magnitudes past 64 bits stay unusable rather than wrapping.
    match parse("99999999999999999999999999").unwrap() {
        Json::Num { mag, .. } => assert_eq!(mag, None),
        _ => panic!("expected a number"),
    }
}

#[test]
fn rejects_malformed_numbers() {
    assert!(parse("01").is_err());
    assert!(parse("1.").is_err());
    assert!(parse("1e").is_err());
    assert!(parse("-").is_err());
    assert!(parse("+1").is_err());
}

#[test]
fn string_escapes_decode() {
    assert_eq!(as_str(&parse("\"a\\nb\"").unwrap()), b"a\nb");
    assert_eq!(as_str(&parse("\"q\\\"q\"").unwrap()), b"q\"q");
    assert_eq!(as_str(&parse("\"\\u00e9\"").unwrap()), "\u{e9}".as_bytes());
    // A surrogate pair decodes to one supplementary character.
    assert_eq!(as_str(&parse("\"\\ud83d\\ude00\"").unwrap()), "\u{1F600}".as_bytes());
    // A lone surrogate is not a string.
    assert!(parse("\"\\ud83d\"").is_err());
    // Raw control bytes must be escaped.
    assert!(parse("\"a\u{0}b\"").is_err());
}

#[test]
fn containers_and_whitespace() {
    let v = parse(" { \"a\" : [ 1 , 2 ] , \"b\" : { } } ").unwrap();
    match v {
        Json::Obj(ms) => {
            assert_eq!(ms.len(), 2);
            assert_eq!(ms[0].0, b"a".to_vec());
            match &ms[0].1 {
                Json::Arr(elems) => assert_eq!(elems.len(), 2),
                _ => panic!("expected an array"),
            }
        },
        _ => panic!("expected an object"),
    }
}

#[test]
fn rejects_trailing_content_and_bad_syntax() {
    assert!(parse("{} x").is_err());
    assert!(parse("[1,]").is_err());
    assert!(parse("{\"a\":}").is_err());
    assert!(parse("").is_err());
    assert!(parse("{\"a\" 1}").is_err());
}

#[test]
fn nesting_is_bounded() {
    // Within the nesting bound, fine.
    let moderate = format!("{}1{}", "[".repeat(100), "]".repeat(100));
    assert!(parse(&moderate).is_ok());
    // Hostile nesting is rejected instead of exhausting the stack.
    let deep = format!("{}1{}", "[".repeat(5000), "]".repeat(5000));
    assert!(parse(&deep).is_err());
}
