use bencode::DecodeError;
use bencode::Parser;

#[test]
fn truncated_byte_string_reports_eof() {
    let err = Parser::new(b"5:ab".to_vec()).parse().unwrap_err();
    assert_eq!(err, DecodeError::UnexpectedEof);
}

#[test]
fn truncated_integer_reports_eof() {
    let err = Parser::new(b"i12".to_vec()).parse().unwrap_err();
    assert_eq!(err, DecodeError::UnexpectedEof);
}

#[test]
fn truncated_list_reports_eof() {
    let err = Parser::new(b"li1e".to_vec()).parse().unwrap_err();
    assert_eq!(err, DecodeError::UnexpectedEof);
}

#[test]
fn empty_input_reports_eof() {
    let err = Parser::new(Vec::new()).parse().unwrap_err();
    assert_eq!(err, DecodeError::UnexpectedEof);
}

#[test]
fn integer_key_is_rejected() {
    let err = Parser::new(b"di5e3:fooe".to_vec()).parse().unwrap_err();
    assert_eq!(err, DecodeError::NonStringKey);
}

#[test]
fn non_utf8_key_is_rejected() {
    let err = Parser::new(b"d2:\xff\xfei1ee".to_vec()).parse().unwrap_err();
    assert_eq!(err, DecodeError::InvalidUtf8);
}

#[test]
fn textual_non_number_integer_is_malformed() {
    let err = Parser::new(b"iabce".to_vec()).parse().unwrap_err();
    assert_eq!(err, DecodeError::MalformedInteger);
}

#[test]
fn double_sign_is_malformed() {
    let err = Parser::new(b"i--1e".to_vec()).parse().unwrap_err();
    assert_eq!(err, DecodeError::MalformedInteger);
}

#[test]
fn lone_sign_is_malformed() {
    let err = Parser::new(b"i-e".to_vec()).parse().unwrap_err();
    assert_eq!(err, DecodeError::MalformedInteger);
}

#[test]
fn overflowing_integer_is_malformed() {
    let err = Parser::new(b"i99999999999999999999999999e".to_vec()).parse().unwrap_err();
    assert_eq!(err, DecodeError::MalformedInteger);
}

#[test]
fn non_utf8_integer_span_is_invalid_text() {
    let err = Parser::new(b"i\xffe".to_vec()).parse().unwrap_err();
    assert_eq!(err, DecodeError::InvalidUtf8);
}

#[test]
fn textual_non_number_length_is_malformed() {
    let err = Parser::new(b"1a:x".to_vec()).parse().unwrap_err();
    assert_eq!(err, DecodeError::MalformedLength);
}

#[test]
fn overflowing_length_is_malformed() {
    let err = Parser::new(b"99999999999999999999999999:x".to_vec()).parse().unwrap_err();
    assert_eq!(err, DecodeError::MalformedLength);
}

#[test]
fn non_utf8_length_span_is_invalid_text() {
    let err = Parser::new(b"1\xff:x".to_vec()).parse().unwrap_err();
    assert_eq!(err, DecodeError::InvalidUtf8);
}

#[test]
fn unrecognized_marker_reports_the_byte() {
    let err = Parser::new(b"x".to_vec()).parse().unwrap_err();
    assert_eq!(err, DecodeError::UnrecognizedMarker(b'x'));
}

#[test]
fn error_inside_dictionary_value_propagates() {
    let err = Parser::new(b"d3:fooxe".to_vec()).parse().unwrap_err();
    assert_eq!(err, DecodeError::UnrecognizedMarker(b'x'));
}
