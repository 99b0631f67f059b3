use bittorrent::bdecode::{parse, BValue, Dict};
use bittorrent::error::{AccessError, ValueKind};

fn one_of_each() -> (BValue, BValue, BValue, BValue) {
    let mut dict = Dict::new();
    dict.insert(b"k".to_vec(), BValue::BNumber(1));
    (
        BValue::BNumber(42),
        BValue::BBytes(b"spam".to_vec()),
        BValue::BList(vec![BValue::BNumber(1), BValue::BNumber(2)]),
        BValue::BDict(dict),
    )
}

fn wrong(expected: ValueKind, actual: ValueKind) -> AccessError {
    AccessError::WrongVariant { expected, actual }
}

#[test]
fn integer_view_of_a_byte_string_is_the_wrong_variant() {
    let value = BValue::BBytes(b"spam".to_vec());
    assert_eq!(
        value.get_number(),
        Err(AccessError::WrongVariant {
            expected: ValueKind::Integer,
            actual: ValueKind::ByteString,
        })
    );
    assert_eq!(value, BValue::BBytes(b"spam".to_vec()));
    assert_eq!(value.get_bytes(), Ok(&b"spam".to_vec()));
}

#[test]
fn kind_names_the_shape() {
    let (number, bytes, list, dict) = one_of_each();
    assert_eq!(number.kind(), ValueKind::Integer);
    assert_eq!(bytes.kind(), ValueKind::ByteString);
    assert_eq!(list.kind(), ValueKind::List);
    assert_eq!(dict.kind(), ValueKind::Dict);
}

#[test]
fn get_number_narrows_to_the_integer() {
    let (number, bytes, list, dict) = one_of_each();
    assert_eq!(number.get_number(), Ok(&42));
    assert_eq!(bytes.get_number(), Err(wrong(ValueKind::Integer, ValueKind::ByteString)));
    assert_eq!(list.get_number(), Err(wrong(ValueKind::Integer, ValueKind::List)));
    assert_eq!(dict.get_number(), Err(wrong(ValueKind::Integer, ValueKind::Dict)));
}

#[test]
fn get_bytes_narrows_to_the_bytes() {
    let (number, bytes, list, dict) = one_of_each();
    assert_eq!(bytes.get_bytes(), Ok(&b"spam".to_vec()));
    assert_eq!(number.get_bytes(), Err(wrong(ValueKind::ByteString, ValueKind::Integer)));
    assert_eq!(list.get_bytes(), Err(wrong(ValueKind::ByteString, ValueKind::List)));
    assert_eq!(dict.get_bytes(), Err(wrong(ValueKind::ByteString, ValueKind::Dict)));
}

#[test]
fn get_list_narrows_to_the_elements() {
    let (number, bytes, list, dict) = one_of_each();
    assert_eq!(list.get_list(), Ok(&vec![BValue::BNumber(1), BValue::BNumber(2)]));
    assert_eq!(number.get_list(), Err(wrong(ValueKind::List, ValueKind::Integer)));
    assert_eq!(bytes.get_list(), Err(wrong(ValueKind::List, ValueKind::ByteString)));
    assert_eq!(dict.get_list(), Err(wrong(ValueKind::List, ValueKind::Dict)));
}

#[test]
fn get_dict_narrows_to_the_entries() {
    let (number, bytes, list, dict) = one_of_each();
    let entries = dict.get_dict().unwrap();
    assert_eq!(entries.len(), 1);
    assert_eq!(entries.get(b"k"), Some(&BValue::BNumber(1)));
    assert_eq!(number.get_dict(), Err(wrong(ValueKind::Dict, ValueKind::Integer)));
    assert_eq!(bytes.get_dict(), Err(wrong(ValueKind::Dict, ValueKind::ByteString)));
    assert_eq!(list.get_dict(), Err(wrong(ValueKind::Dict, ValueKind::List)));
}

#[test]
fn get_string_reads_valid_text() {
    let (number, bytes, list, dict) = one_of_each();
    assert_eq!(bytes.get_string(), Ok("spam"));
    assert_eq!(BValue::BBytes(Vec::new()).get_string(), Ok(""));
    assert_eq!(
        BValue::BBytes("h\u{e9}llo \u{4e16}\u{754c} \u{1f600}".as_bytes().to_vec()).get_string(),
        Ok("h\u{e9}llo \u{4e16}\u{754c} \u{1f600}")
    );
    assert_eq!(number.get_string(), Err(wrong(ValueKind::ByteString, ValueKind::Integer)));
    assert_eq!(list.get_string(), Err(wrong(ValueKind::ByteString, ValueKind::List)));
    assert_eq!(dict.get_string(), Err(wrong(ValueKind::ByteString, ValueKind::Dict)));
}

#[test]
fn get_string_refuses_invalid_text() {
    assert_eq!(BValue::BBytes(vec![0xff]).get_string(), Err(AccessError::InvalidText));
    assert_eq!(BValue::BBytes(vec![0xc3]).get_string(), Err(AccessError::InvalidText));
    assert_eq!(
        BValue::BBytes(vec![b'a', 0x80, b'b']).get_string(),
        Err(AccessError::InvalidText)
    );
    assert_eq!(
        BValue::BBytes(vec![0xed, 0xa0, 0x80]).get_string(),
        Err(AccessError::InvalidText)
    );
    assert_eq!(
        BValue::BBytes(vec![0xc0, 0xaf]).get_string(),
        Err(AccessError::InvalidText)
    );
    assert_eq!(
        BValue::BBytes(vec![0xf4, 0x90, 0x80, 0x80]).get_string(),
        Err(AccessError::InvalidText)
    );
    assert_eq!(
        BValue::BBytes(vec![0xf5, 0x80, 0x80, 0x80]).get_string(),
        Err(AccessError::InvalidText)
    );
    assert_eq!(
        BValue::BBytes(vec![0xe2, 0x82]).get_string(),
        Err(AccessError::InvalidText)
    );
    assert_eq!(
        BValue::BBytes(vec![0xf4, 0x8f, 0xbf, 0xbf]).get_string(),
        Ok("\u{10ffff}")
    );
    let (_, pieces) = parse(b"3:\x00\x9f\x92").unwrap();
    assert_eq!(pieces.get_string(), Err(AccessError::InvalidText));
    assert_eq!(pieces.get_bytes().unwrap().len(), 3);
}

#[test]
fn new_dict_is_empty() {
    let dict = Dict::new();
    assert_eq!(dict.len(), 0);
    assert_eq!(dict.get(b"a"), None);
    assert!(dict.entries().is_empty());
}

#[test]
fn insert_adds_and_replaces() {
    let mut dict = Dict::new();
    dict.insert(b"a".to_vec(), BValue::BNumber(1));
    dict.insert(b"b".to_vec(), BValue::BNumber(2));
    dict.insert(Vec::new(), BValue::BNumber(0));
    assert_eq!(dict.len(), 3);
    dict.insert(b"a".to_vec(), BValue::BBytes(b"x".to_vec()));
    assert_eq!(dict.len(), 3);
    assert_eq!(dict.get(b"a"), Some(&BValue::BBytes(b"x".to_vec())));
    assert_eq!(dict.get(b"b"), Some(&BValue::BNumber(2)));
    assert_eq!(dict.get(b""), Some(&BValue::BNumber(0)));
    assert_eq!(dict.get(b"c"), None);
    let entries = dict.entries();
    assert_eq!(entries[0], (b"a".to_vec(), BValue::BBytes(b"x".to_vec())));
    assert_eq!(entries[1], (b"b".to_vec(), BValue::BNumber(2)));
    assert_eq!(entries[2], (Vec::new(), BValue::BNumber(0)));
}
