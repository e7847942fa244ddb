use stream_vbyte64::{
    compressed_data_len, decode, decode_avx, decode_scalar, decode_single, encode, encode_avx,
    encode_scalar, encode_single, keys_len, max_compressed_len,
};

#[test]
fn check_compressed_len() {
    let values = (0..4090)
        .map(|v| v * (u64::max_value() / 4090))
        .collect::<Vec<_>>();
    let len = max_compressed_len(values.len());
    let mut buf = vec![0; len];
    let written = encode(&values, &mut buf);
    let data_len = compressed_data_len(values.len(), &buf);
    assert_eq!(written, keys_len(values.len()) + data_len);
}

#[test]
fn base_round_trip() {
    let values = (0..4090)
        .map(|v| v * (u64::max_value() / 4090))
        .collect::<Vec<_>>();
    let len = max_compressed_len(values.len());
    let mut buf = vec![0; len];
    let written = encode(&values, &mut buf);
    let mut out = vec![0; values.len()];
    decode(&mut out, &buf[..written]);
    assert_eq!(values, out);
}

#[test]
fn short_round_trip() {
    let values = [0, 1, 2, 3, 4, 5, 6, 7];
    let len = max_compressed_len(values.len());
    let mut buf = vec![0; len];
    let written = encode(&values, &mut buf);
    let mut out = [0; 8];
    decode(&mut out, &buf[..written]);
    assert_eq!(values, out);
}

#[test]
fn scalar_round_trip() {
    let values = (0..4090)
        .map(|v| v * (u64::max_value() / 4090))
        .collect::<Vec<_>>();
    let mut keys = vec![0; keys_len(values.len())];
    let mut data = vec![0; values.len() * 8];

    let written = encode_scalar(&values, &mut keys, &mut data);
    let mut out = vec![0; values.len()];
    let read = decode_scalar(&mut out, &keys, &data);
    assert_eq!(read, written);
    assert_eq!(values, out);
}

#[test]
fn match_encode() {
    let values = [
        5,
        5 << 8 | 2,
        5 << 16 | 2,
        5 << 24 | 2,
        5 << 32 | 2,
        5 << 40 | 2,
        5 << 48 | 2,
        5 << 56 | 2,
    ];
    let mut keys1 = vec![0; keys_len(values.len())];
    let mut data1 = vec![0; values.len() * 8];
    let written1 = encode_scalar(&values, &mut keys1, &mut data1);

    let mut keys2 = vec![0; keys_len(values.len())];
    let mut data2 = vec![0; values.len() * 8];
    let written2 = encode_avx(&values, &mut keys2, &mut data2);

    assert_eq!(keys1, keys2);
    assert_eq!(data1, data2);
    assert_eq!(written1, written2);
}

#[test]
fn single_round_trip() {
    let tests = [
        0,
        5,
        5 << 8 | 2,
        5 << 16 | 2,
        5 << 24 | 2,
        5 << 32 | 2,
        5 << 40 | 2,
        5 << 48 | 2,
        5 << 56 | 2,
    ];
    for &test in &tests {
        let mut buf = [0; 8];
        let mut write_pos = 0;
        let code = encode_single(test, &mut buf, &mut write_pos);
        let mut read_pos = 0;
        let out = decode_single(&buf, &mut read_pos, code);
        assert_eq!(write_pos, read_pos);
        assert_eq!(test, out);
    }
}

/// Values of mixed lengths.
fn sample(n: usize, seed: u64) -> Vec<u64> {
    let mut state = seed;
    let mut values = Vec::new();
    for _ in 0..n {
        state = state
            .wrapping_mul(6364136223846793005)
            .wrapping_add(1442695040888963407);
        let bits = (state >> 58) as u32;
        values.push(state.rotate_left(17) >> bits);
    }
    values
}

#[test]
fn lengths_of_the_buffers() {
    assert_eq!(keys_len(0), 0);
    assert_eq!(keys_len(1), 3);
    assert_eq!(keys_len(8), 3);
    assert_eq!(keys_len(9), 6);
    assert_eq!(keys_len(4090), 1536);
    assert_eq!(max_compressed_len(0), 0);
    assert_eq!(max_compressed_len(1), 11);
    assert_eq!(max_compressed_len(8), 67);
    assert_eq!(max_compressed_len(9), 78);
}

#[test]
fn thresholds_of_the_codes() {
    for c in 0..8u32 {
        let lowest: u64 = if c == 0 { 0 } else { 1 << (8 * c) };
        let highest: u64 = u64::MAX >> (56 - 8 * c);
        for &value in &[lowest, highest] {
            let mut out = [0xaa; 10];
            let mut pos = 1;
            assert_eq!(encode_single(value, &mut out, &mut pos), c as u8);
            assert_eq!(pos, 2 + c as usize);
            assert_eq!(out[0], 0xaa);
            assert_eq!(&out[1..pos], &value.to_le_bytes()[..c as usize + 1]);
            assert!(out[pos..].iter().all(|&b| b == 0xaa));
        }
    }
}

#[test]
fn long_codes_read_eight_bytes() {
    let data = [1, 2, 3, 4, 5, 6, 7, 8, 9];
    for &code in &[7u8, 8, 200, 255] {
        let mut pos = 1;
        assert_eq!(decode_single(&data, &mut pos, code), 0x0908070605040302);
        assert_eq!(pos, 9);
    }
    let mut pos = 2;
    assert_eq!(decode_single(&data, &mut pos, 2), 0x050403);
    assert_eq!(pos, 5);
}

#[test]
fn exact_bytes_of_an_encoding() {
    let values = [0x11, 0x2233, 0, 0x445566, u64::MAX, 1, 2, 3, 0x100];
    let mut buf = vec![0xee; max_compressed_len(values.len())];
    let written = encode(&values, &mut buf);
    let expected = [
        // codes 0 1 0 2 7 0 0 0, and 1
        0x08, 0x74, 0x00, 0x01, 0x00, 0x00,
        0x11, 0x33, 0x22, 0x00, 0x66, 0x55, 0x44,
        0xff, 0xff, 0xff, 0xff, 0xff, 0xff, 0xff, 0xff,
        0x01, 0x02, 0x03, 0x00, 0x01,
    ];
    assert_eq!(written, 26);
    assert_eq!(&buf[..written], &expected[..]);
    assert!(buf[written..].iter().all(|&b| b == 0xee));
    assert_eq!(compressed_data_len(9, &buf), 20);

    let mut out = [0; 9];
    assert_eq!(decode(&mut out, &buf[..written]), 20);
    assert_eq!(out, values);
}

#[test]
fn nothing_to_encode() {
    let mut buf = [7; 4];
    assert_eq!(encode(&[], &mut buf), 0);
    assert_eq!(buf, [7; 4]);
    assert_eq!(encode_scalar(&[], &mut [], &mut []), 0);
    assert_eq!(encode_avx(&[], &mut [], &mut []), 0);
    assert_eq!(decode_scalar(&mut [], &[], &[]), 0);
    assert_eq!(decode_avx(&mut [], &[], &[]), 0);
}

#[test]
fn compressed_len_of_partial_and_full_groups() {
    for n in 1..70 {
        let values = sample(n, n as u64);
        let mut buf = vec![0; max_compressed_len(n)];
        let data_len = encode(&values, &mut buf) - keys_len(n);
        let told = compressed_data_len(n, &buf);
        if n % 8 == 0 {
            assert_eq!(told + 8, data_len);
        } else {
            assert_eq!(told, data_len);
        }
    }
}

#[test]
fn codes_behind_the_last_value_count() {
    // two values of one byte; the six other codes are 7
    let keys = [0xc0, 0xff, 0xff];
    assert_eq!(compressed_data_len(2, &keys), 2 + 6 * 7);
    let mut out = [0; 2];
    assert_eq!(decode_scalar(&mut out, &keys, &[4, 5]), 2);
    assert_eq!(out, [4, 5]);
}

#[test]
fn encodings_stay_within_the_limits() {
    for n in 0..40 {
        let mut buf = vec![0; max_compressed_len(n)];
        assert_eq!(encode(&vec![u64::MAX; n], &mut buf), max_compressed_len(n));
        assert_eq!(encode(&vec![0; n], &mut buf), keys_len(n) + n);
    }
}

#[test]
fn encoders_agree() {
    for n in 0..130 {
        let values = sample(n, 1000 + n as u64);
        let mut keys1 = vec![0x55; keys_len(n) + 2];
        let mut data1 = vec![0x55; n * 8];
        let written1 = encode_scalar(&values, &mut keys1, &mut data1);
        let mut keys2 = vec![0x55; keys_len(n) + 2];
        let mut data2 = vec![0x55; n * 8];
        let written2 = encode_avx(&values, &mut keys2, &mut data2);
        assert_eq!(written1, written2);
        assert_eq!(keys1, keys2);
        assert_eq!(data1[..written1], data2[..written1]);
        // behind the data bytes: untouched, or zero as far as a vector reached
        assert!(data1[written1..].iter().all(|&b| b == 0x55));
        let zeros = data2[written1..].iter().take_while(|&&b| b == 0).count();
        assert!(zeros < 32);
        assert!(data2[written1 + zeros..].iter().all(|&b| b == 0x55));
    }
}

#[test]
fn vectors_leave_zeros_behind() {
    let values = [1, 2, 3, 4, 5, 6, 7, 8];
    let mut keys = [0; 3];
    let mut data = [0x55; 64];
    assert_eq!(encode_avx(&values, &mut keys, &mut data), 8);
    assert_eq!(&data[..8], &[1, 2, 3, 4, 5, 6, 7, 8]);
    assert!(data[8..36].iter().all(|&b| b == 0));
    assert!(data[36..].iter().all(|&b| b == 0x55));
}

#[test]
fn decoders_agree() {
    for n in 0..200 {
        let values = sample(n, 5000 + n as u64);
        let mut keys = vec![0; keys_len(n)];
        let mut data = vec![0; n * 8];
        let written = encode_scalar(&values, &mut keys, &mut data);
        let mut out1 = vec![0; n];
        assert_eq!(decode_scalar(&mut out1, &keys, &data[..written]), written);
        let mut out2 = vec![0; n];
        assert_eq!(decode_avx(&mut out2, &keys, &data[..written]), written);
        assert_eq!(out1, values);
        assert_eq!(out2, values);
    }
}

#[test]
fn vectors_do_not_reach_past_short_values() {
    for n in 60..90 {
        let values = vec![9; n];
        let mut keys = vec![0; keys_len(n)];
        let mut data = vec![0; n * 8];
        let written = encode_avx(&values, &mut keys, &mut data);
        assert_eq!(written, n);
        let mut out = vec![0; n];
        assert_eq!(decode_avx(&mut out, &keys, &data[..n]), n);
        assert_eq!(out, values);
    }
}

#[test]
fn what_lies_behind_does_not_matter() {
    let values = sample(21, 77);
    let mut buf = vec![0xcd; max_compressed_len(21) + 9];
    let written = encode(&values, &mut buf);
    let mut out = vec![0; 21];
    assert_eq!(decode(&mut out, &buf), written - keys_len(21));
    assert_eq!(out, values);
}
