use stream_vbyte64::avx::{decode_block_avx, encode_block_avx};
use stream_vbyte64::tables::{
    decode_shuffle_1, decode_shuffle_2, encode_shuffle_1, encode_shuffle_2, length,
};
use stream_vbyte64::vector::Vector;

fn ramp() -> Vector {
    let mut bytes = [0; 32];
    for i in 0..32 {
        bytes[i] = i as u8 + 1;
    }
    Vector::setr_epi8(bytes)
}

#[test]
fn lengths_of_blocks() {
    assert_eq!(length(0), 4);
    assert_eq!(length(0xfff), 32);
    // codes 1 2 3 4
    assert_eq!(length(1 + 8 * 2 + 64 * 3 + 512 * 4), 14);
}

#[test]
fn block_of_mixed_lengths() {
    let values = [0x0201, 0x03, 0x0908070605040302, 0x0a0b0c];
    let mut out = [0x77; 40];
    let mut pos = 3;
    let code = encode_block_avx(&mut out, &mut pos, &Vector::loadu_values(&values, 0));
    assert_eq!(code, 1 + 64 * 7 + 512 * 2);
    assert_eq!(pos, 3 + 2 + 1 + 8 + 3);
    assert_eq!(&out[..3], &[0x77; 3]);
    assert_eq!(
        &out[3..17],
        &[1, 2, 3, 2, 3, 4, 5, 6, 7, 8, 9, 0x0c, 0x0b, 0x0a]
    );
    assert_eq!(&out[17..35], &[0; 18]);
    assert_eq!(&out[35..], &[0x77; 5]);

    let mut read = 3;
    let block = decode_block_avx(&out, &mut read, code);
    assert_eq!(read, pos);
    let mut back = [0; 6];
    block.storeu_values(&mut back, 1);
    assert_eq!(back, [0, 0x0201, 0x03, 0x0908070605040302, 0x0a0b0c, 0]);
}

#[test]
fn all_block_codes() {
    for code in 0..4096u32 {
        let mut values = [0; 4];
        for k in 0..4 {
            let c = (code >> (3 * k)) & 7;
            values[k] = 0x8182838485868788 >> (56 - 8 * c);
        }
        let mut out = [0xff; 64];
        let mut pos = 0;
        let found = encode_block_avx(&mut out, &mut pos, &Vector::loadu_values(&values, 0));
        assert_eq!(found, code);
        assert_eq!(pos, length(code) as usize);
        let mut expected = Vec::new();
        for k in 0..4 {
            let c = (code >> (3 * k)) & 7;
            expected.extend_from_slice(&values[k].to_le_bytes()[..c as usize + 1]);
        }
        assert_eq!(&out[..pos], &expected[..]);

        let mut read = 0;
        let block = decode_block_avx(&out, &mut read, code);
        let mut back = [0; 4];
        block.storeu_values(&mut back, 0);
        assert_eq!(read, pos);
        assert_eq!(back, values);
    }
}

#[test]
fn shuffles_of_one_byte_values() {
    let mut low = [255; 32];
    low[0] = 0;
    low[1] = 8;
    assert_eq!(encode_shuffle_1(0).bytes, low);
    let mut high = [255; 32];
    high[18] = 0;
    high[19] = 8;
    assert_eq!(encode_shuffle_2(0).bytes, high);
    let mut back_low = [255; 32];
    back_low[0] = 0;
    back_low[8] = 1;
    assert_eq!(decode_shuffle_1(0).bytes, back_low);
    let mut back_high = [255; 32];
    back_high[0] = 2;
    back_high[8] = 3;
    assert_eq!(decode_shuffle_2(0).bytes, back_high);
}

#[test]
fn shuffles_of_eight_byte_values() {
    let mut all = [255; 32];
    for i in 0..32 {
        all[i] = i as u8 % 16;
    }
    assert_eq!(encode_shuffle_1(0xfff).bytes, all);
    assert_eq!(encode_shuffle_2(0xfff).bytes, [255; 32]);
    assert_eq!(decode_shuffle_1(0xfff).bytes, all);
    assert_eq!(decode_shuffle_2(0xfff).bytes, [255; 32]);
}

#[test]
fn bytewise_operations() {
    let five = Vector::set1_epi8(5);
    assert_eq!(five.bytes, [5; 32]);
    let min = ramp().min_epu8(&five).bytes;
    let max = ramp().max_epu8(&five).bytes;
    let or = ramp().or_si256(&five).bytes;
    for i in 0..32 {
        let x = i as u8 + 1;
        assert_eq!(min[i], x.min(5));
        assert_eq!(max[i], x.max(5));
        assert_eq!(or[i], x | 5);
    }
    assert_eq!(ramp().extract_epi8(11), 12);
}

#[test]
fn word_operations() {
    let words = Vector::setr_epi32([0x80000001, 3, 0, 0xffffffff, 1, 2, 3, 4]);
    assert_eq!(&words.bytes[..8], &[1, 0, 0, 0x80, 3, 0, 0, 0]);
    let product = words.mullo_epi32(&Vector::setr_epi32([2, 5, 9, 0xffffffff, 7, 7, 7, 7]));
    assert_eq!(
        product.bytes,
        Vector::setr_epi32([2, 15, 0, 1, 7, 14, 21, 28]).bytes
    );
    let shifted = ramp().slli_epi64(32).bytes;
    for k in 0..4 {
        assert_eq!(&shifted[8 * k..8 * k + 4], &[0; 4]);
        for j in 4..8 {
            assert_eq!(shifted[8 * k + j], (8 * k + j) as u8 - 3);
        }
    }
}

#[test]
fn shuffles_and_permutations() {
    let mut mask = [255; 32];
    mask[0] = 15;
    mask[1] = 0x13;
    mask[2] = 0x80;
    mask[16] = 0;
    mask[31] = 7;
    let shuffled = ramp().shuffle_epi8(&Vector::setr_epi8(mask)).bytes;
    let mut expected = [0; 32];
    expected[0] = 16;
    expected[1] = 4;
    expected[16] = 17;
    expected[31] = 24;
    assert_eq!(shuffled, expected);

    let permuted = ramp().permute4x64_epi64(0b01_00_11_10).bytes;
    assert_eq!(permuted[0], 17);
    assert_eq!(permuted[8], 25);
    assert_eq!(permuted[16], 1);
    assert_eq!(permuted[31], 16);
}

#[test]
fn loads_and_stores() {
    let data: Vec<u8> = (0..40).collect();
    let loaded = Vector::loadu_bytes(&data, 5);
    assert_eq!(&loaded.bytes[..], &data[5..37]);
    let mut out = [0xff; 35];
    loaded.storeu_bytes(&mut out, 2);
    assert_eq!(out[1], 0xff);
    assert_eq!(&out[2..34], &data[5..37]);
    assert_eq!(out[34], 0xff);

    let values = [9, 0x0807060504030201, 2, 3, 4];
    let loaded = Vector::loadu_values(&values, 1);
    assert_eq!(&loaded.bytes[..9], &[1, 2, 3, 4, 5, 6, 7, 8, 2]);
}
