use lwwdb::{BoolRleDecoder, BoolRleEncoder, DeltaRleDecoder, DeltaRleEncoder};

fn collect_bools(bytes: &[u8]) -> Vec<bool> {
    let mut decoder = BoolRleDecoder::new(bytes);
    let mut out = Vec::new();
    while let Some(b) = decoder.next() {
        out.push(b);
    }
    out
}

fn collect_i64s(bytes: &[u8]) -> Vec<i64> {
    let mut decoder = DeltaRleDecoder::new(bytes);
    let mut out = Vec::new();
    while let Some(v) = decoder.next() {
        out.push(v);
    }
    out
}

#[test]
fn basic() {
    let mut encoder = BoolRleEncoder::new();
    encoder.push(true);
    encoder.push(false);

    let encoded = encoder.finish();
    let decoded = collect_bools(&encoded);
    assert_eq!(decoded, vec![true, false]);
}

#[test]
fn bool_rle() {
    let mut encoder = BoolRleEncoder::new();
    encoder.push(true);
    encoder.push(true);
    encoder.push(true);
    encoder.push(false);
    encoder.push(false);
    encoder.push(true);
    encoder.push(true);
    encoder.push(false);
    encoder.push(false);
    encoder.push(false);
    encoder.push(false);
    encoder.push(true);
    encoder.push(true);

    let encoded = encoder.finish();
    let decoded = collect_bools(&encoded);
    assert_eq!(
        decoded,
        vec![true, true, true, false, false, true, true, false, false, false, false, true, true]
    );
}

#[test]
fn bool_rle_1() {
    let mut encoder = BoolRleEncoder::new();
    let mut ans = vec![];
    for i in 0..100 {
        let v = i % 3 == 0;
        encoder.push(v);
        ans.push(v);
    }

    let encoded = encoder.finish();
    let decoded = collect_bools(&encoded);
    assert_eq!(decoded, ans);
}

#[test]
fn bool_rle_2() {
    let mut encoder = BoolRleEncoder::new();
    let mut ans = vec![];
    for i in 0..100 {
        let v = i % 3 != 0;
        encoder.push(v);
        ans.push(v);
    }

    let encoded = encoder.finish();
    let decoded = collect_bools(&encoded);
    assert_eq!(decoded, ans);
}

#[test]
fn test_delta_rle() {
    let mut encoder = DeltaRleEncoder::new();
    encoder.push(-111);
    encoder.push(-111);
    encoder.push(111);
    encoder.push(111);
    encoder.push(1);
    encoder.push(1);
    encoder.push(2);
    encoder.push(2);
    encoder.push(3);
    encoder.push(3);
    encoder.push(3);
    encoder.push(22);
    encoder.push(22);
    let bytes = encoder.finish();
    let ans = collect_i64s(&bytes);
    assert_eq!(ans, vec![-111, -111, 111, 111, 1, 1, 2, 2, 3, 3, 3, 22, 22])
}

#[test]
fn encode_decode_0() {
    let mut encoder = DeltaRleEncoder::new();
    let mut values = Vec::new();
    for v in 0..1000 {
        encoder.push(v);
        values.push(v);
    }
    let bytes = encoder.finish();
    let ans = collect_i64s(&bytes);
    assert_eq!(ans, values);
}

#[test]
fn encode_decode_1() {
    let mut encoder = DeltaRleEncoder::new();
    let mut values = Vec::new();
    for v in 0..1000i64 {
        let v = (v * v * 10 + 1) % 10007;
        encoder.push(v);
        values.push(v);
    }
    let bytes = encoder.finish();
    let ans = collect_i64s(&bytes);
    assert_eq!(ans, values);
}

#[test]
fn delta_rle_extremes() {
    let mut encoder = DeltaRleEncoder::new();
    let values = vec![i64::MIN, i64::MAX, 0, -1, 1, i64::MIN, i64::MAX];
    for v in &values {
        encoder.push(*v);
    }
    let bytes = encoder.finish();
    let ans = collect_i64s(&bytes);
    assert_eq!(ans, values);
}

#[test]
fn bool_rle_canonical_bytes() {
    // Bit-exact form: a zero-length `false` run opens a stream that
    // starts with `true`, then one varint per maximal run.
    let mut encoder = BoolRleEncoder::new();
    encoder.push(true);
    encoder.push(true);
    assert_eq!(encoder.finish(), vec![0u8, 2]);

    let mut encoder = BoolRleEncoder::new();
    encoder.push(false);
    encoder.push(true);
    encoder.push(true);
    encoder.push(true);
    assert_eq!(encoder.finish(), vec![1u8, 3]);

    let mut encoder = BoolRleEncoder::new();
    for _ in 0..200 {
        encoder.push(false);
    }
    encoder.push(true);
    // 200 = 0b1100_1000: varint bytes [0xc8, 0x01].
    assert_eq!(encoder.finish(), vec![0xc8u8, 0x01, 1]);
}

#[test]
fn delta_rle_canonical_bytes() {
    // Bit-exact form: one (count, zigzag delta) varint pair per maximal
    // run of equal consecutive deltas, in order.
    let mut encoder = DeltaRleEncoder::new();
    encoder.push(5);
    encoder.push(6);
    encoder.push(7);
    // deltas 5,1,1: (1, zigzag 5 = 10), (2, zigzag 1 = 2).
    assert_eq!(encoder.finish(), vec![1u8, 10, 2, 2]);

    let mut encoder = DeltaRleEncoder::new();
    encoder.push(3);
    encoder.push(3);
    encoder.push(3);
    // deltas 3,0,0: (1, zigzag 3 = 6), (2, zigzag 0 = 0).
    assert_eq!(encoder.finish(), vec![1u8, 6, 2, 0]);

    let mut encoder = DeltaRleEncoder::new();
    encoder.push(-1);
    // delta -1: (1, zigzag -1 = 1).
    assert_eq!(encoder.finish(), vec![1u8, 1]);
}

#[test]
fn bool_rle_empty() {
    let encoder = BoolRleEncoder::new();
    let encoded = encoder.finish();
    assert!(encoded.is_empty());
    assert_eq!(collect_bools(&encoded), Vec::<bool>::new());
}

#[test]
fn delta_rle_empty() {
    let encoder = DeltaRleEncoder::new();
    let bytes = encoder.finish();
    assert!(bytes.is_empty());
    assert_eq!(collect_i64s(&bytes), Vec::<i64>::new());
}
