use points_store::common::MyError;
use points_store::parse::{parse_user_id, parse_user_id_bulk};

#[test]
fn user_id_from_ascii_bytes() {
    assert_eq!(parse_user_id(b"alice".to_vec()), Ok("alice".to_string()));
}

#[test]
fn user_id_decodes_multi_byte_utf8() {
    // 0xC3 0xA9 must come back as one character, not as raw bytes
    assert_eq!(
        parse_user_id(vec![0xC3, 0xA9]),
        Ok("\u{e9}".to_string())
    );
}

#[test]
fn user_id_rejects_ill_formed_utf8() {
    assert_eq!(parse_user_id(vec![0xFF]), Err(MyError::ParseError));
}

#[test]
fn bulk_reads_terminated_ids() {
    assert_eq!(
        parse_user_id_bulk(b"a;b;".to_vec()),
        Ok(vec!["a".to_string(), "b".to_string()])
    );
}

#[test]
fn bulk_drops_last_byte_of_unterminated_tail() {
    // the scan strips each chunk's final byte, so an unterminated last id
    // loses a byte and a lone trailing id past the last separator is cut
    assert_eq!(
        parse_user_id_bulk(b"a;bc".to_vec()),
        Ok(vec!["a".to_string(), "b".to_string()])
    );
    assert_eq!(parse_user_id_bulk(b"ab".to_vec()), Ok(vec!["a".to_string()]));
}

#[test]
fn bulk_of_one_byte_is_empty() {
    assert_eq!(parse_user_id_bulk(b"x".to_vec()), Ok(vec![]));
    assert_eq!(parse_user_id_bulk(b";".to_vec()), Ok(vec![]));
}

#[test]
fn bulk_rejects_ill_formed_utf8() {
    assert_eq!(
        parse_user_id_bulk(vec![0xFF, 0xFF, b';', b'a', b';']),
        Err(MyError::ParseError)
    );
}
