use bencode::Bencode;
use bencode::DecodeError;
use bencode::Parser;

#[test]
fn simple_dict() -> Result<(), DecodeError> {
    let data = "d5:monthi4e4:name5:aprile".as_bytes();
    let parsed = Parser::new(data.to_vec()).parse()?;

    let expected = Bencode::Dictionary(vec![
        (String::from("month"), Bencode::Integer(4)),
        (String::from("name"), Bencode::Bytes("april".as_bytes().to_vec())),
    ]);
    assert!(parsed == expected);

    Ok(())
}

#[test]
fn integer() -> Result<(), DecodeError> {
    let data = "i1234e".as_bytes();
    let parsed = Parser::new(data.to_vec()).parse()?;

    assert!(matches!(parsed, Bencode::Integer(1234)));
    Ok(())
}

#[test]
fn list() -> Result<(), DecodeError> {
    let data = "li2e3:fooe".as_bytes();
    let parsed = Parser::new(data.to_vec()).parse()?;
    let expected = Bencode::List(vec![
        Bencode::Integer(2),
        Bencode::Bytes("foo".as_bytes().to_vec()),
    ]);

    assert!(parsed == expected);
    Ok(())
}

#[test]
fn negative_integer() {
    let parsed = Parser::new(b"i-42e".to_vec()).parse().unwrap();
    assert!(parsed == Bencode::Integer(-42));
}

#[test]
fn empty_dictionary() {
    let parsed = Parser::new(b"de".to_vec()).parse().unwrap();
    assert!(parsed == Bencode::Dictionary(vec![]));
}

#[test]
fn empty_list() {
    let parsed = Parser::new(b"le".to_vec()).parse().unwrap();
    assert!(parsed == Bencode::List(vec![]));
}

#[test]
fn empty_byte_string() {
    let parsed = Parser::new(b"0:".to_vec()).parse().unwrap();
    assert!(parsed == Bencode::Bytes(vec![]));
}

#[test]
fn binary_payload_is_kept_raw() {
    let parsed = Parser::new(b"3:\xff\xfe\x00".to_vec()).parse().unwrap();
    assert!(parsed == Bencode::Bytes(vec![0xff, 0xfe, 0x00]));
}

#[test]
fn duplicate_keys_resolve_to_last_value() {
    let parsed = Parser::new(b"d3:fooi1e3:fooi2ee".to_vec()).parse().unwrap();
    assert!(parsed == Bencode::Dictionary(vec![(String::from("foo"), Bencode::Integer(2))]));
}

#[test]
fn multibyte_key_is_decoded_as_text() {
    let parsed = Parser::new(b"d2:\xc3\xa9i1ee".to_vec()).parse().unwrap();
    let expected = Bencode::Dictionary(vec![(String::from("\u{e9}"), Bencode::Integer(1))]);
    assert!(parsed == expected);
}

#[test]
fn nested_structures() {
    let parsed = Parser::new(b"d4:listli1ei2eee".to_vec()).parse().unwrap();
    let expected = Bencode::Dictionary(vec![(
        String::from("list"),
        Bencode::List(vec![Bencode::Integer(1), Bencode::Integer(2)]),
    )]);
    assert!(parsed == expected);
}

#[test]
fn trailing_input_is_left_untouched() {
    let parsed = Parser::new(b"i7eXYZ".to_vec()).parse().unwrap();
    assert!(parsed == Bencode::Integer(7));
}
