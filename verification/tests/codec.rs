use rand::Rng;
use rs_erasure::codec::{
    as_bytes, as_u64, decode_stripe, encode_stripe, interpolate, DecodeIter, IterU32, TakeN,
};
use rs_erasure::gf232::GF232;
use rs_erasure::{decode, encode};

#[test]
fn test_encode_decode() {
    let mut rng = rand::thread_rng();
    let data: Vec<u8> = rng.gen_iter().take(10000).collect();
    let encoded = encode(&data, 10, 5);
    let mut indices = [0, 1, 2, 3, 4, 5, 6, 7, 8, 9];
    rng.shuffle(&mut indices);

    let decoded = decode(
        &[
            (indices[0], &encoded[indices[0]]),
            (indices[1], &encoded[indices[1]]),
            (indices[2], &encoded[indices[2]]),
            (indices[3], &encoded[indices[3]]),
            (indices[4], &encoded[indices[4]]),
        ],
        5,
    );
    assert_eq!(data, decoded);
}

#[test]
fn test_empty_data() {
    let data: Vec<u8> = vec![];
    let encoded = encode(&data, 3, 2);
    assert_eq!(encoded.len(), 3);
    for shard in &encoded {
        assert_eq!(shard, &vec![0u8; 8]);
    }
    assert_eq!(decode(&[(0, &encoded[0]), (1, &encoded[1])], 2), data);
    assert_eq!(decode(&[(0, &encoded[0]), (2, &encoded[2])], 2), data);
    assert_eq!(decode(&[(2, &encoded[2]), (1, &encoded[1])], 2), data);
}

#[test]
fn test_one_byte_one_word_stripes() {
    let data: Vec<u8> = vec![0x01];
    let encoded = encode(&data, 2, 1);
    assert_eq!(encoded.len(), 2);
    let framed: Vec<u8> = vec![1, 0, 0, 0, 0, 0, 0, 0, 1, 0, 0, 0];
    assert_eq!(encoded[0], framed);
    assert_eq!(encoded[1], framed);
    assert_eq!(decode(&[(0, &encoded[0])], 1), data);
    assert_eq!(decode(&[(1, &encoded[1])], 1), data);
}

#[test]
fn test_single_shard_is_frame() {
    let data: Vec<u8> = vec![9, 8, 7, 6, 5];
    let encoded = encode(&data, 1, 1);
    assert_eq!(encoded.len(), 1);
    assert_eq!(encoded[0], vec![5, 0, 0, 0, 0, 0, 0, 0, 9, 8, 7, 6, 5, 0, 0, 0]);
    assert_eq!(decode(&[(0, &encoded[0])], 1), data);
}

#[test]
fn test_padding_is_never_empty() {
    // 8 + 8 = 16 bytes fill two stripes of 8 bytes: a third holds the padding
    let data: Vec<u8> = vec![1, 2, 3, 4, 5, 6, 7, 8];
    let encoded = encode(&data, 3, 2);
    for shard in &encoded {
        assert_eq!(shard.len(), 12);
    }
    assert_eq!(decode(&[(1, &encoded[1]), (2, &encoded[2])], 2), data);
    // one byte less, and two stripes are enough
    let shorter: Vec<u8> = vec![1, 2, 3, 4, 5, 6, 7];
    for shard in &encode(&shorter, 3, 2) {
        assert_eq!(shard.len(), 8);
    }
}

#[test]
fn test_shard_lengths() {
    for len in 0..40usize {
        let data: Vec<u8> = (0..len).map(|i| (i * 7 + 3) as u8).collect();
        for k in 1..5usize {
            let n = k + 2;
            let encoded = encode(&data, n, k);
            assert_eq!(encoded.len(), n);
            let stripes = (len + 9 + 4 * k - 1) / (4 * k);
            for shard in &encoded {
                assert_eq!(shard.len(), 4 * stripes);
            }
        }
    }
}

#[test]
fn test_first_shards_hold_the_frame() {
    let data: Vec<u8> = (0..21u8).collect();
    let encoded = encode(&data, 5, 3);
    // 8 + 21 + 7 = 36 bytes: three stripes of three words
    let mut framed: Vec<u8> = vec![21, 0, 0, 0, 0, 0, 0, 0];
    framed.extend_from_slice(&data);
    framed.extend_from_slice(&[0u8; 7]);
    for stripe in 0..3 {
        for word in 0..3 {
            let at = 4 * (3 * stripe + word);
            assert_eq!(&encoded[word][4 * stripe..4 * stripe + 4], &framed[at..at + 4]);
        }
    }
    assert_eq!(
        decode(&[(0, &encoded[0]), (1, &encoded[1]), (2, &encoded[2])], 3),
        data
    );
}

#[test]
fn test_every_pair_of_shards() {
    let data: Vec<u8> = (0..100u8).map(|i| i.wrapping_mul(37)).collect();
    let encoded = encode(&data, 5, 2);
    for a in 0..5usize {
        for b in 0..5usize {
            if a != b {
                assert_eq!(decode(&[(a, &encoded[a]), (b, &encoded[b])], 2), data);
            }
        }
    }
}

#[test]
fn test_order_of_shards() {
    let data: Vec<u8> = (0..50u8).collect();
    let encoded = encode(&data, 6, 3);
    let first = decode(&[(1, &encoded[1]), (3, &encoded[3]), (5, &encoded[5])], 3);
    let second = decode(&[(5, &encoded[5]), (1, &encoded[1]), (3, &encoded[3])], 3);
    let third = decode(&[(3, &encoded[3]), (5, &encoded[5]), (1, &encoded[1])], 3);
    assert_eq!(first, data);
    assert_eq!(second, data);
    assert_eq!(third, data);
}

#[test]
fn test_extra_shards_are_ignored() {
    let data: Vec<u8> = vec![42; 17];
    let encoded = encode(&data, 4, 2);
    let decoded = decode(
        &[(3, &encoded[3]), (0, &encoded[0]), (1, &encoded[1]), (2, &encoded[2])],
        2,
    );
    assert_eq!(decoded, data);
}

#[test]
fn test_no_redundancy() {
    let data: Vec<u8> = vec![1, 2, 3];
    let encoded = encode(&data, 2, 2);
    assert_eq!(decode(&[(1, &encoded[1]), (0, &encoded[0])], 2), data);
}

#[test]
fn test_as_bytes_and_as_u64() {
    assert_eq!(as_bytes(0), vec![0u8; 8]);
    assert_eq!(
        as_bytes(0x0102_0304_0506_0708),
        vec![8, 7, 6, 5, 4, 3, 2, 1]
    );
    assert_eq!(as_u64(&[8, 7, 6, 5, 4, 3, 2, 1]), 0x0102_0304_0506_0708);
    assert_eq!(as_u64(&[1, 0, 0, 0, 0, 0, 0, 0, 99]), 1);
    assert_eq!(as_u64(&as_bytes(u64::MAX)), u64::MAX);
    assert_eq!(as_u64(&as_bytes(10_000)), 10_000);
}

#[test]
fn test_iter_u32() {
    let bytes = [1u8, 2, 3, 4, 5, 6];
    let mut words = IterU32::new(&bytes);
    assert_eq!(words.next(), Some(0x0403_0201));
    assert_eq!(words.next(), Some(0x0000_0605));
    assert_eq!(words.next(), None);
    assert_eq!(words.next(), None);
    let mut none = IterU32::new(&[]);
    assert_eq!(none.next(), None);
}

#[test]
fn test_take_n() {
    let bytes: Vec<u8> = (1..=20u8).collect();
    let mut groups = TakeN::new(IterU32::new(&bytes), 2);
    assert_eq!(groups.next(), Some(vec![0x0403_0201, 0x0807_0605]));
    assert_eq!(groups.next(), Some(vec![0x0C0B_0A09, 0x100F_0E0D]));
    assert_eq!(groups.next(), Some(vec![0x1413_1211]));
    assert_eq!(groups.next(), None);
    let mut nothing = TakeN::new(IterU32::new(&bytes), 0);
    assert_eq!(nothing.next(), None);
}

#[test]
fn test_decode_iter() {
    let a = [1u8, 0, 0, 0, 2, 0, 0, 0];
    let b = [3u8, 0, 0, 0];
    let mut both = DecodeIter::new(vec![(7, IterU32::new(&a)), (9, IterU32::new(&b))]);
    assert_eq!(both.next(), Some(vec![(7, 1), (9, 3)]));
    // the second stream has run out; the first gives its word all the same
    assert_eq!(both.next(), None);
    assert_eq!(both.next(), None);
    let mut first = DecodeIter::new(vec![(7, IterU32::new(&a))]);
    assert_eq!(first.next(), Some(vec![(7, 1)]));
    assert_eq!(first.next(), Some(vec![(7, 2)]));
    assert_eq!(first.next(), None);
}

#[test]
fn test_interpolate() {
    // through (0, 5) and (1, 4): 5 + x
    let line = interpolate(vec![(0, GF232(5)), (1, GF232(4))]);
    assert_eq!(line.coefficients(), vec![GF232(5), GF232(1)]);
    // one point: a constant
    let constant = interpolate(vec![(3, GF232(8))]);
    assert_eq!(constant.coefficients(), vec![GF232(8)]);
    let zero = interpolate(vec![(0, GF232(0)), (1, GF232(0)), (2, GF232(0))]);
    assert_eq!(zero.coefficients(), vec![]);
    assert_eq!(interpolate(vec![]).coefficients(), vec![]);
    let points = vec![
        (4, GF232(0xDEAD_BEEF)),
        (0, GF232(17)),
        (9, GF232(0)),
        (0xFFFF_FFFF, GF232(0x8000_0001)),
    ];
    let through = interpolate(points.clone());
    assert!(through.coefficients().len() <= 4);
    for (x, y) in points {
        assert_eq!(through.apply(GF232(x as u32)), y);
    }
}

#[test]
fn test_encode_stripe_and_decode_stripe() {
    let words = [0x0101_0101u32, 0xFFFF_0000, 7];
    let values = encode_stripe(&words, 6, 3);
    assert_eq!(values.len(), 6);
    assert_eq!(&values[0..3], &words);
    let back = decode_stripe(&[(5, values[5]), (3, values[3]), (1, values[1])], 3);
    assert_eq!(back, words.to_vec());
    // samples beyond the first three are not looked at
    let more = decode_stripe(&[(0, values[0]), (4, values[4]), (2, values[2]), (1, 12345)], 3);
    assert_eq!(more, words.to_vec());
    // one word: every shard has it
    assert_eq!(encode_stripe(&[9], 3, 1), vec![9, 9, 9]);
    // line through (0, 5), (1, 4) is 5 + x: at 2 it is 7, at 3 it is 6
    assert_eq!(encode_stripe(&[5, 4], 4, 2), vec![5, 4, 7, 6]);
}

#[test]
fn test_decode_cuts_at_the_frame() {
    // a frame that claims more data than it holds gives what it holds
    let frame: Vec<u8> = vec![200, 0, 0, 0, 0, 0, 0, 0, 1, 2, 3, 4];
    assert_eq!(decode(&[(0, &frame)], 1), vec![1, 2, 3, 4]);
    let exact: Vec<u8> = vec![2, 0, 0, 0, 0, 0, 0, 0, 1, 2, 3, 4];
    assert_eq!(decode(&[(0, &exact)], 1), vec![1, 2]);
}
