use bittorrent::bdecode;
use bittorrent::bdecode::{BValue, Dict};
use bittorrent::error::{ParseError, ParseErrorKind};

#[test]
fn parse_number() {
    assert_eq!(bdecode::parse_number(&b"i3e"[..]), Ok((&b""[..], 3)));
    assert_eq!(bdecode::parse_number(&b"i-3e"[..]), Ok((&b""[..], -3)));
}

#[test]
fn parse_string() {
    assert_eq!(
        bdecode::parse_length(&b"12:Hello World!"[..]),
        Ok((&b"Hello World!"[..], 12))
    );
    let (rest, bytes) = bdecode::parse_bytes(&b"12:Hello World!"[..]).unwrap();
    assert_eq!(rest, &b""[..]);
    assert_eq!(String::from_utf8(bytes), Ok("Hello World!".to_string()));
    assert_eq!(
        bdecode::parse_bytes(&b"15:Hello World!"[..]),
        Err(ParseError { kind: ParseErrorKind::TruncatedInput, offset: 3 })
    );
}

#[test]
fn parse_value() {
    assert_eq!(bdecode::parse(&b"i3e"[..]), Ok((&b""[..], BValue::BNumber(3))));
    let (rest, value) = bdecode::parse(&b"12:Hello World!"[..]).unwrap();
    assert_eq!(rest, &b""[..]);
    assert_eq!(value.get_string(), Ok("Hello World!"));
}

#[test]
fn parse_list() {
    let (rest, value) = bdecode::parse(&b"l4:spam4:eggse"[..]).unwrap();
    assert_eq!(rest, &b""[..]);
    let items = value.get_list().unwrap();
    assert_eq!(items.len(), 2);
    assert_eq!(items[0].get_string(), Ok("spam"));
    assert_eq!(items[1].get_string(), Ok("eggs"));
    let expected = vec![BValue::BBytes(b"spam".to_vec()), BValue::BBytes(b"eggs".to_vec())];
    assert_eq!(bdecode::parse_list(&b"l4:spam4:eggse"[..]), Ok((&b""[..], expected)));
}

#[test]
fn parse_dict() {
    let mut expected = Dict::new();
    expected.insert(b"cow".to_vec(), BValue::BBytes(b"moo".to_vec()));
    expected.insert(b"spam".to_vec(), BValue::BBytes(b"eggs".to_vec()));

    let (rest, value) = bdecode::parse(&b"d3:cow3:moo4:spam4:eggse"[..]).unwrap();
    assert_eq!(rest, &b""[..]);
    let dict = value.get_dict().unwrap();
    assert_eq!(dict.get(b"cow").unwrap().get_string(), Ok("moo"));
    assert_eq!(dict.get(b"spam").unwrap().get_string(), Ok("eggs"));
    assert_eq!(value, BValue::BDict(expected));
}
