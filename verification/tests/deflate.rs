use squeeze::deflate::{deflate, inflate, ErrorKind};

#[test]
fn deflate_answers_with_one_zero_byte() {
    assert_eq!(deflate(b"").unwrap(), vec![0u8]);
    assert_eq!(deflate(b"some text").unwrap(), vec![0u8]);
}

#[test]
fn inflate_answers_with_one_zero_byte() {
    assert_eq!(inflate(b"").unwrap(), vec![0u8]);
    assert_eq!(inflate(&[0u8]).unwrap(), vec![0u8]);
    assert_eq!(inflate(b"some text").unwrap(), vec![0u8]);
}

#[test]
fn deflate_error_kind_describes_itself() {
    assert_eq!(ErrorKind::Other.as_str(), "other deflate error");
}
