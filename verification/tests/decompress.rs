use squeeze::lz77::{Compressor, ErrorKind};

#[test]
fn empty_stream_decodes_to_nothing() {
    let compressor = Compressor::new();
    assert_eq!(compressor.decompress(b"").unwrap(), Vec::<u8>::new());
}

#[test]
fn literals_stand_for_themselves() {
    let compressor = Compressor::new();
    assert_eq!(compressor.decompress(b"plain text").unwrap(), b"plain text".to_vec());
    assert_eq!(compressor.decompress(&[0, 1, 200, 255]).unwrap(), vec![0, 1, 200, 255]);
}

#[test]
fn two_prefix_bytes_stand_for_one() {
    let compressor = Compressor::new();
    assert_eq!(compressor.decompress(b"``").unwrap(), b"`".to_vec());
    assert_eq!(compressor.decompress(b"a``b````c").unwrap(), b"a`b``c".to_vec());
}

#[test]
fn back_reference_copies_earlier_output() {
    let compressor = Compressor::new();
    assert_eq!(compressor.decompress(b"abcdefgh` ! ij").unwrap(), b"abcdefghcdefgij".to_vec());
    assert_eq!(compressor.decompress(b"hello hello hello ` '&!").unwrap(), b"hello hello hello hello hello!".to_vec());
}

#[test]
fn back_reference_of_distance_zero_repeats_the_end() {
    let compressor = Compressor::new();
    assert_eq!(compressor.decompress(b"abcde`   ").unwrap(), b"abcdeabcde".to_vec());
    assert_eq!(compressor.decompress(b"abcdef`  !").unwrap(), b"abcdefabcdef".to_vec());
}

#[test]
fn back_reference_may_reach_the_start_of_the_output() {
    let compressor = Compressor::new();
    assert_eq!(compressor.decompress(b"0123456789` % ").unwrap(), b"012345678901234".to_vec());
}

#[test]
fn back_reference_before_the_start_is_refused() {
    let compressor = Compressor::new();
    assert_eq!(
        compressor.decompress(b"0123456789` %!").unwrap_err().kind(),
        ErrorKind::ReferenceOutOfBounds
    );
    assert_eq!(compressor.decompress(b"`   ").unwrap_err().kind(), ErrorKind::ReferenceOutOfBounds);
    assert_eq!(
        compressor.decompress(b"aaaa` ! ").unwrap_err().kind(),
        ErrorKind::ReferenceOutOfBounds
    );
}

#[test]
fn four_literals_cannot_feed_a_copy_of_thirty_five_bytes() {
    let compressor = Compressor::new();
    assert_eq!(
        compressor.decompress(b"aaaa` !>").unwrap_err().kind(),
        ErrorKind::ReferenceOutOfBounds
    );
}

#[test]
fn stream_that_ends_inside_a_token_is_refused() {
    let compressor = Compressor::new();
    assert_eq!(compressor.decompress(b"`").unwrap_err().kind(), ErrorKind::UnexpectedEnd);
    assert_eq!(compressor.decompress(b"abc`").unwrap_err().kind(), ErrorKind::UnexpectedEnd);
    assert_eq!(compressor.decompress(b"abcdef` ").unwrap_err().kind(), ErrorKind::UnexpectedEnd);
    assert_eq!(compressor.decompress(b"abcdef`  ").unwrap_err().kind(), ErrorKind::UnexpectedEnd);
    assert_eq!(compressor.decompress(b"```").unwrap_err().kind(), ErrorKind::UnexpectedEnd);
}

#[test]
fn invalid_digit_in_a_back_reference_is_refused() {
    let compressor = Compressor::new();
    assert_eq!(
        compressor.decompress(&[b'a', b'b', b'c', b'd', b'e', b'`', 10, 32, 32]).unwrap_err().kind(),
        ErrorKind::InvalidCode
    );
    assert_eq!(
        compressor.decompress(&[b'a', b'b', b'c', b'd', b'e', b'`', 32, 128, 32]).unwrap_err().kind(),
        ErrorKind::InvalidCode
    );
    assert_eq!(
        compressor.decompress(&[b'a', b'b', b'c', b'd', b'e', b'`', 32, 32, 31]).unwrap_err().kind(),
        ErrorKind::InvalidCode
    );
}

#[test]
fn ending_is_refused_before_digits_are_read() {
    let compressor = Compressor::new();
    assert_eq!(
        compressor.decompress(&[b'a', b'`', 10, 10]).unwrap_err().kind(),
        ErrorKind::UnexpectedEnd
    );
}

#[test]
fn first_unreadable_token_decides_the_error() {
    let compressor = Compressor::new();
    assert_eq!(
        compressor.decompress(&[b'`', 32, 32, 33, b'`', 10, 10, 10]).unwrap_err().kind(),
        ErrorKind::ReferenceOutOfBounds
    );
    assert_eq!(
        compressor.decompress(&[b'a', b'`', 10, 10, 10, b'`']).unwrap_err().kind(),
        ErrorKind::InvalidCode
    );
}

#[test]
fn greatest_digits_are_read() {
    let compressor = Compressor::new();
    let mut stream = vec![b'x'; 9315];
    stream.extend_from_slice(&[b'`', 127, 127, 127]);
    let out = compressor.decompress(&stream).unwrap();
    assert_eq!(out, vec![b'x'; 9415]);
    let mut short = vec![b'x'; 9314];
    short.extend_from_slice(&[b'`', 127, 127, 127]);
    assert_eq!(compressor.decompress(&short).unwrap_err().kind(), ErrorKind::ReferenceOutOfBounds);
}
