use sonic_share::rs::{decode_blocks, encode_blocks, encoded_len, DecodeError};

#[test]
fn corrects_sixteen_errors_per_block() {
    let data: Vec<u8> = (0..255u16).map(|x| (x * 7 + 3) as u8).collect();
    let mut encoded = encode_blocks(&data);

    // A contiguous 32-byte burst becomes 16 errors in each interleaved
    // block, exactly the correction limit.
    for (k, byte) in encoded.iter_mut().take(32).enumerate() {
        *byte ^= 0xA5 ^ k as u8;
    }

    let (decoded, corrected) = decode_blocks(&encoded, data.len()).expect("correctable");
    assert_eq!(decoded, data);
    assert_eq!(corrected, 32);
}

#[test]
fn rejects_uncorrectable_block() {
    let data = vec![0x42; 100];
    let mut encoded = encode_blocks(&data);
    for k in 0..20 {
        encoded[k * 5] ^= 0x3C ^ k as u8;
    }
    assert!(decode_blocks(&encoded, data.len()).is_err());
}

#[test]
fn encoded_lengths() {
    assert_eq!(encoded_len(0), 0);
    assert_eq!(encoded_len(1), 33);
    assert_eq!(encoded_len(223), 255);
    assert_eq!(encoded_len(224), 224 + 64);
    assert_eq!(encoded_len(257), 257 + 64);
    assert_eq!(encode_blocks(&[1, 2, 3]).len(), encoded_len(3));
}

#[test]
fn clean_blocks_decode_without_corrections() {
    for len in [0usize, 1, 100, 223, 224, 300, 446, 447] {
        let data: Vec<u8> = (0..len).map(|x| (x * 13 + 1) as u8).collect();
        let encoded = encode_blocks(&data);
        assert_eq!(encoded.len(), encoded_len(len));
        assert_eq!(decode_blocks(&encoded, len), Ok((data, 0)));
    }
}

#[test]
fn codewords_are_systematic_and_interleaved() {
    // Two codewords: 223 + 77 data bytes; the stream alternates between them
    // while both are long enough.
    let data: Vec<u8> = (0..300u32).map(|x| x as u8).collect();
    let encoded = encode_blocks(&data);
    assert_eq!(encoded[0], data[0]);
    assert_eq!(encoded[1], data[223]);
    assert_eq!(encoded[2], data[1]);
    assert_eq!(encoded[3], data[224]);
}

#[test]
fn wrong_stream_length_is_refused() {
    let data = vec![7u8; 50];
    let mut encoded = encode_blocks(&data);
    encoded.push(0);
    assert_eq!(decode_blocks(&encoded, data.len()), Err(DecodeError));
    encoded.truncate(encoded.len() - 2);
    assert_eq!(decode_blocks(&encoded, data.len()), Err(DecodeError));
    assert_eq!(decode_blocks(&[], 0), Ok((vec![], 0)));
    assert_eq!(decode_blocks(&[1], 0), Err(DecodeError));
}

#[test]
fn encoded_length_follows_the_block_count() {
    assert_eq!(encoded_len(0), 0);
    assert_eq!(encoded_len(1), 33);
    assert_eq!(encoded_len(223), 255);
    assert_eq!(encoded_len(224), 288);
    assert_eq!(encoded_len(255), 319);
    for n in [1usize, 100, 223, 224, 500] {
        let data: Vec<u8> = (0..n).map(|i| (i * 7) as u8).collect();
        assert_eq!(encode_blocks(&data).len(), encoded_len(n));
    }
}

#[test]
fn one_block_stream_begins_with_its_data() {
    let data: Vec<u8> = (0..200u32).map(|i| (i * 13) as u8).collect();
    let encoded = encode_blocks(&data);
    assert_eq!(&encoded[..data.len()], &data[..]);
}
