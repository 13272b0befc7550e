use squeeze::lz77::Compressor;

fn filler(n: usize) -> Vec<u8> {
    let mut out = Vec::new();
    let mut k: usize = 0;
    while out.len() < n {
        out.push((150 + k / 100) as u8);
        out.push((128 + k % 100 / 10) as u8);
        out.push((140 + k % 10) as u8);
        k += 1;
    }
    out.truncate(n);
    out
}

fn scrambled(n: usize, alphabet: &[u8], seed: u64) -> Vec<u8> {
    let mut state = seed;
    let mut out = Vec::with_capacity(n);
    for _ in 0..n {
        state = state.wrapping_mul(6364136223846793005).wrapping_add(1442695040888963407);
        out.push(alphabet[((state >> 33) % alphabet.len() as u64) as usize]);
    }
    out
}

#[test]
fn round_trip_of_text() {
    let compressor = Compressor::new();
    let text = b"It was the best of times, it was the worst of times, it was the age of wisdom, \
it was the age of foolishness, it was the epoch of belief, it was the epoch of incredulity.";
    for window in [0i64, 1, 6, 7, 8, 20, 144, 1000, 6148] {
        let packed = compressor.compress(text, window).unwrap();
        assert_eq!(compressor.decompress(&packed).unwrap(), text.to_vec());
    }
    let packed = compressor.compress(text, 0).unwrap();
    assert!(packed.len() < text.len());
}

#[test]
fn round_trip_of_every_byte_value() {
    let compressor = Compressor::new();
    let mut data: Vec<u8> = (0..=255u8).collect();
    data.extend((0..=255u8).rev());
    data.extend(0..=255u8);
    for window in [0i64, 300, 600] {
        let packed = compressor.compress(&data, window).unwrap();
        assert_eq!(compressor.decompress(&packed).unwrap(), data);
    }
}

#[test]
fn round_trip_of_repetitive_input_with_prefix_bytes() {
    let compressor = Compressor::new();
    for seed in 0..40u64 {
        for n in [0usize, 1, 4, 5, 6, 13, 14, 40, 150, 400] {
            let data = scrambled(n, b"ab`", seed);
            for window in [0i64, 1, 6, 7, 8, 10, 20, 144, 1000] {
                let packed = compressor.compress(&data, window).unwrap();
                assert_eq!(compressor.decompress(&packed).unwrap(), data);
            }
        }
    }
}

#[test]
fn round_trip_of_runs() {
    let compressor = Compressor::new();
    for byte in [b'a', b'`', 0u8, 255u8] {
        for n in 0..=230usize {
            let data = vec![byte; n];
            let packed = compressor.compress(&data, 0).unwrap();
            assert_eq!(compressor.decompress(&packed).unwrap(), data);
        }
    }
}

#[test]
fn round_trip_with_the_widest_plain_window() {
    let compressor = Compressor::new();
    let mut data = b"hello".to_vec();
    data.extend_from_slice(&filler(6144));
    data.extend_from_slice(b"helloTAILEND");
    let packed = compressor.compress(&data, 6148).unwrap();
    assert_eq!(packed.len(), 6161);
    assert_eq!(compressor.decompress(&packed).unwrap(), data);
    let mut nearer = b"hello".to_vec();
    nearer.extend_from_slice(&filler(6143));
    nearer.extend_from_slice(b"helloTAILEND");
    let packed = compressor.compress(&nearer, 6148).unwrap();
    assert_eq!(packed.len(), 6159);
    assert_eq!(&packed[6148..], &[b'`', 95, 127, 32, b'T', b'A', b'I', b'L', b'E', b'N', b'D']);
    assert_eq!(compressor.decompress(&packed).unwrap(), nearer);
}

#[test]
fn back_reference_whose_distance_starts_with_the_prefix_byte_reads_as_an_escape() {
    let compressor = Compressor::new();
    let mut data = b"hello".to_vec();
    data.extend_from_slice(&filler(6144));
    data.extend_from_slice(b"helloTAILEND");
    let packed = compressor.compress(&data, 6149).unwrap();
    assert_eq!(packed.len(), 6160);
    assert_eq!(&packed[6149..], b"``  TAILEND");
    let unpacked = compressor.decompress(&packed).unwrap();
    assert_eq!(unpacked.len(), 6159);
    assert_eq!(&unpacked[6149..], b"`  TAILEND");
    assert_ne!(unpacked, data);
}
