use squeeze::lz77::{Compressor, ErrorKind};

fn filler(n: usize) -> Vec<u8> {
    let mut out = Vec::new();
    let mut k: usize = 0;
    while out.len() < n {
        out.push((150 + k / 100) as u8);
        out.push((128 + k % 100 / 10) as u8);
        out.push((140 + k % 10) as u8);
        k += 1;
    }
    out.truncate(n);
    out
}

#[test]
fn empty_input_compresses_to_nothing() {
    let compressor = Compressor::new();
    assert_eq!(compressor.compress(b"", 0).unwrap(), Vec::<u8>::new());
    assert_eq!(compressor.compress(b"", 144).unwrap(), Vec::<u8>::new());
}

#[test]
fn short_inputs_are_only_escaped() {
    let compressor = Compressor::new();
    for window in [0i64, 1, 5, 144, 9000] {
        assert_eq!(compressor.compress(b"a", window).unwrap(), b"a".to_vec());
        assert_eq!(compressor.compress(b"`", window).unwrap(), b"``".to_vec());
        assert_eq!(compressor.compress(b"a`b`", window).unwrap(), b"a``b``".to_vec());
        assert_eq!(compressor.compress(b"````", window).unwrap(), b"````````".to_vec());
        assert_eq!(compressor.compress(b"abcd", window).unwrap(), b"abcd".to_vec());
        assert_eq!(compressor.compress(&[0, 255, 96, 7], window).unwrap(), vec![0, 255, 96, 96, 7]);
    }
}

#[test]
fn inputs_of_a_few_more_bytes_hold_no_match_either() {
    let compressor = Compressor::new();
    assert_eq!(compressor.compress(b"abcde", 0).unwrap(), b"abcde".to_vec());
    assert_eq!(compressor.compress(b"ab`de", 0).unwrap(), b"ab``de".to_vec());
    assert_eq!(compressor.compress(b"aaaaaaaaaaaa", 0).unwrap(), b"aaaaaaaaaaaa".to_vec());
}

#[test]
fn runs_of_prefix_bytes_double_up_to_thirteen() {
    let compressor = Compressor::new();
    for n in 0..=13usize {
        for window in [0i64, 1, 7, 8, 144, 9000] {
            let packed = compressor.compress(&vec![b'`'; n], window).unwrap();
            assert_eq!(packed, vec![b'`'; 2 * n]);
        }
    }
}

#[test]
fn runs_of_prefix_bytes_double_in_windows_up_to_seven() {
    let compressor = Compressor::new();
    for n in [14usize, 15, 30, 200] {
        for window in [1i64, 5, 6, 7, -1] {
            let packed = compressor.compress(&vec![b'`'; n], window).unwrap();
            assert_eq!(packed, vec![b'`'; 2 * n]);
        }
    }
}

#[test]
fn longer_run_of_prefix_bytes_in_a_wider_window_holds_a_back_reference() {
    let compressor = Compressor::new();
    let mut expected = vec![b'`'; 16];
    expected.extend_from_slice(b"` \"!");
    assert_eq!(compressor.compress(&vec![b'`'; 14], 0).unwrap(), expected);
    assert_eq!(compressor.compress(&vec![b'`'; 14], 8).unwrap(), expected);
    assert_eq!(compressor.decompress(&expected).unwrap(), vec![b'`'; 14]);
}

#[test]
fn repeat_at_the_window_edge_is_found_and_one_byte_beyond_is_not() {
    let compressor = Compressor::new();
    let data = b"abcde0123456789abcdeUVWXYZ!";
    assert_eq!(compressor.compress(data, 16).unwrap(), b"abcde0123456789` * UVWXYZ!".to_vec());
    assert_eq!(compressor.compress(data, 15).unwrap(), b"abcde0123456789` * UVWXYZ!".to_vec());
    assert_eq!(compressor.compress(data, 14).unwrap(), data.to_vec());
    assert_eq!(compressor.compress(data, 0).unwrap(), b"abcde0123456789` * UVWXYZ!".to_vec());
}

#[test]
fn hundred_equal_bytes_hold_a_single_back_reference() {
    let compressor = Compressor::new();
    let mut data = vec![b'a'; 100];
    data.push(b'b');
    let packed = compressor.compress(&data, 0).unwrap();
    let mut expected = vec![b'a'; 51];
    expected.extend_from_slice(b"` \"Lb");
    assert_eq!(packed, expected);
    assert_eq!(packed.iter().filter(|&&b| b == b'`').count(), 1);
    assert_eq!(compressor.decompress(&packed).unwrap(), data);
}

#[test]
fn longest_back_reference_copies_ninety_nine_bytes() {
    let compressor = Compressor::new();
    let block: Vec<u8> = (0..130usize).map(|i| ((i * 7 + 3) % 251) as u8).collect();
    let mut data = block.clone();
    data.push(b'|');
    data.extend_from_slice(&block);
    data.push(b'#');
    let packed = compressor.compress(&data, 200).unwrap();
    assert_eq!(packed.len(), 141);
    assert_eq!(&packed[132..], &[b'`', 32, 64, 126, b'`', 33, 36, 58, b'#']);
    assert_eq!(compressor.decompress(&packed).unwrap(), data);
}

#[test]
fn period_three_input_compresses_and_decompresses() {
    let compressor = Compressor::new();
    let data = b"abc".repeat(20);
    let packed = compressor.compress(&data, 0).unwrap();
    assert_eq!(packed, b"abcabcabcabcabcabcabcabcabcabcab` \"7".to_vec());
    assert_eq!(compressor.decompress(&packed).unwrap(), data);
    let data = b"abc".repeat(10);
    let packed = compressor.compress(&data, 0).unwrap();
    assert_eq!(packed, b"abcabcabcabcabcab` \"(".to_vec());
    assert_eq!(compressor.decompress(&packed).unwrap(), data);
}

#[test]
fn forty_equal_bytes_start_with_literals_and_end_in_a_back_reference() {
    let compressor = Compressor::new();
    let data = b"aaaaaaaaaaaaaaaaaaaaaaaaaaaaaaaaaaaaaaaa";
    assert_eq!(data.len(), 40);
    let packed = compressor.compress(data, 144).unwrap();
    assert_eq!(&packed[..4], b"aaaa");
    let mut expected = vec![b'a'; 21];
    expected.push(b'`');
    expected.extend_from_slice(&compressor.encode_reference_int(2, 2).unwrap());
    expected.extend_from_slice(&compressor.encode_reference_int(19 - 5, 1).unwrap());
    assert_eq!(packed, expected);
    assert_eq!(packed, b"aaaaaaaaaaaaaaaaaaaaa` \".".to_vec());
    assert_eq!(compressor.decompress(&packed).unwrap(), data.to_vec());
}

#[test]
fn text_with_repeats_and_prefix_bytes() {
    let compressor = Compressor::new();
    let data = b"hello hello hello hello hello!";
    assert_eq!(compressor.compress(data, 0).unwrap(), b"hello hello hello ` '&!".to_vec());
    let data = b"the quick brown fox, the quick brown dog, the quick brown cat.";
    assert_eq!(
        compressor.compress(data, 0).unwrap(),
        b"the quick brown fox, ` %+dog` #-cat.".to_vec()
    );
    let data = b"a`b``c the back`tick the back`tick the back`tick.";
    assert_eq!(
        compressor.compress(data, 0).unwrap(),
        b"a``b````c the back``tick the back``tick` .).".to_vec()
    );
}

#[test]
fn negative_window_only_escapes() {
    let compressor = Compressor::new();
    let data = b"hello hello hello hello `hello!";
    assert_eq!(compressor.compress(data, -1).unwrap(), b"hello hello hello hello ``hello!".to_vec());
    assert_eq!(
        compressor.compress(data, i64::MIN).unwrap(),
        b"hello hello hello hello ``hello!".to_vec()
    );
}

#[test]
fn greatest_distance_that_two_digits_accept() {
    let compressor = Compressor::new();
    let mut data = b"hello".to_vec();
    data.extend_from_slice(&filler(9214));
    data.extend_from_slice(b"helloTAILEND");
    let packed = compressor.compress(&data, 9219).unwrap();
    assert_eq!(packed.len(), 9230);
    assert_eq!(&packed[9219..], &[b'`', 127, 126, 32, b'T', b'A', b'I', b'L', b'E', b'N', b'D']);
    assert_eq!(compressor.decompress(&packed).unwrap(), data);
}

#[test]
fn distance_beyond_two_digits_is_refused() {
    let compressor = Compressor::new();
    let mut data = b"hello".to_vec();
    data.extend_from_slice(&filler(9215));
    data.extend_from_slice(b"helloTAILEND");
    assert_eq!(compressor.compress(&data, 9220).unwrap_err().kind(), ErrorKind::ValueOutOfRange);
    assert_eq!(compressor.compress(&data, 9225).unwrap_err().kind(), ErrorKind::ValueOutOfRange);
    let packed = compressor.compress(&data, 9219).unwrap();
    assert_eq!(packed.len(), 9232);
    assert_eq!(compressor.decompress(&packed).unwrap(), data);
}
