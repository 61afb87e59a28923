use binjson::{
    decode_complex_vector, decode_real_vector, encode_complex_vector, encode_real_vector, Complex,
    ExtractError,
};

fn to_f32(bits: &[u32]) -> Vec<f32> {
    bits.iter().map(|b| f32::from_bits(*b)).collect()
}

fn to_f64(bits: &[u64]) -> Vec<f64> {
    bits.iter().map(|b| f64::from_bits(*b)).collect()
}

fn approx_eq_f32(a: &[f32], b: &[f32]) {
    assert_eq!(a.len(), b.len(), "len");
    let eps = 10.0 * f32::EPSILON;
    for i in 0..a.len() {
        assert!((a[i] - b[i]).abs() <= eps, "{} != {}", a[i], b[i]);
    }
}

fn approx_eq_f64(a: &[f64], b: &[f64]) {
    assert_eq!(a.len(), b.len(), "len");
    let eps = 10.0 * f64::EPSILON;
    for i in 0..a.len() {
        assert!((a[i] - b[i]).abs() <= eps, "{} != {}", a[i], b[i]);
    }
}

fn complex_parts_f32(v: &[Complex<u32>]) -> (Vec<f32>, Vec<f32>) {
    let re: Vec<u32> = v.iter().map(|c| c.re).collect();
    let im: Vec<u32> = v.iter().map(|c| c.im).collect();
    (to_f32(&re), to_f32(&im))
}

fn complex_parts_f64(v: &[Complex<u64>]) -> (Vec<f64>, Vec<f64>) {
    let re: Vec<u64> = v.iter().map(|c| c.re).collect();
    let im: Vec<u64> = v.iter().map(|c| c.im).collect();
    (to_f64(&re), to_f64(&im))
}

#[test]
fn test_encode_complex_f32() {
    let hexstr =
        "4d7d0b3f85c10d3ddbcd2e3e34eef73ec9c4063e59363d3faa137c3fd018583f75b0103fcb3c773f";

    let bytes: Vec<u8> = hex::decode(hexstr).unwrap();

    let expected_re: Vec<f32> = vec![0.5448807, 0.17070715, 0.13161005, 0.98467505, 0.5651925];
    let expected_im: Vec<f32> = vec![0.03460838, 0.48423922, 0.7391105, 0.8441286, 0.9657714];

    let decoded: Vec<Complex<u32>> = decode_complex_vector(&bytes).unwrap();
    let encoded = encode_complex_vector(&decoded);

    let (re, im) = complex_parts_f32(&decoded);
    approx_eq_f32(&re, &expected_re);
    approx_eq_f32(&im, &expected_im);
    assert_eq!(&encoded, &bytes);
}

#[test]
fn test_encode_real_f32() {
    let hexstr = "145ade3d26f2d33e2e792c3e0589123f3e6e713f";
    let expected: Vec<f32> = vec![0.10857025, 0.41395682, 0.16843101, 0.57240325, 0.9430884];

    let bytes: Vec<u8> = hex::decode(hexstr).unwrap();
    let decoded: Vec<u32> = decode_real_vector(&bytes).unwrap();
    let encoded = encode_real_vector(&decoded);

    approx_eq_f32(&to_f32(&decoded), &expected);
    assert_eq!(encoded, bytes);
}

#[test]
fn test_encode_complex_f64() {
    let hexstr =
        "d039b932a5ace13f108f8e834e5db63faa6ebd58d6fdd93f4ec90d147884da3f584dc0dc90ddd23f889ad49ec18ed63fed0be97046f9e83f175adf5067d1ea3f8084d20064607d3f24a5fe9929a1cc3f";

    let bytes: Vec<u8> = hex::decode(hexstr).unwrap();

    let expected_re: Vec<f64> = vec![
        0.5523248663610563,
        0.4061179987527149,
        0.2947733073971981,
        0.780429096725468,
        0.0071720034003714,
    ];
    let expected_im: Vec<f64> = vec![
        0.0873612471755758,
        0.4143352695310981,
        0.3524631548956809,
        0.8380619601765059,
        0.2236682893683702,
    ];

    let decoded: Vec<Complex<u64>> = decode_complex_vector(&bytes).unwrap();
    let encoded = encode_complex_vector(&decoded);

    let (re, im) = complex_parts_f64(&decoded);
    approx_eq_f64(&re, &expected_re);
    approx_eq_f64(&im, &expected_im);
    assert_eq!(&encoded, &bytes);
}

#[test]
fn test_encode_real_f64() {
    let hexstr =
        "f230270bf04edd3f33d707e8c0bbea3feee00aa9a996e43f56b72894eb24e03fb458db566736de3f";
    let expected: Vec<f64> = vec![
        0.4579429730336094,
        0.8354191333625977,
        0.643391447220919,
        0.5045068639499088,
        0.4720705364428668,
    ];

    let bytes: Vec<u8> = hex::decode(hexstr).unwrap();
    let decoded: Vec<u64> = decode_real_vector(&bytes).unwrap();
    let encoded = encode_real_vector(&decoded);

    approx_eq_f64(&to_f64(&decoded), &expected);
    assert_eq!(encoded, bytes);
}

#[test]
fn malformed_length_real_and_complex() {
    let bytes: Vec<u8> = vec![1, 2, 3, 4, 5, 6, 7];
    let real = decode_real_vector::<u32>(&bytes);
    assert_eq!(real, Err(ExtractError::InvalidLength { div: 4, actual: 7 }));
    let complex = decode_complex_vector::<u32>(&bytes);
    assert_eq!(complex, Err(ExtractError::InvalidLength { div: 8, actual: 7 }));
}

#[test]
fn malformed_length_double_precision() {
    let bytes: Vec<u8> = vec![0; 12];
    assert_eq!(
        decode_real_vector::<u64>(&bytes),
        Err(ExtractError::InvalidLength { div: 8, actual: 12 })
    );
    assert_eq!(
        decode_complex_vector::<u64>(&bytes),
        Err(ExtractError::InvalidLength { div: 16, actual: 12 })
    );
    // Twelve bytes are three single-precision words but not whole pairs of them.
    assert_eq!(decode_real_vector::<u32>(&bytes).unwrap().len(), 3);
    assert_eq!(
        decode_complex_vector::<u32>(&bytes),
        Err(ExtractError::InvalidLength { div: 8, actual: 12 })
    );
}

#[test]
fn empty_buffers_and_sequences() {
    let empty: Vec<u8> = Vec::new();
    assert_eq!(decode_real_vector::<u32>(&empty).unwrap(), Vec::<u32>::new());
    assert_eq!(decode_real_vector::<u64>(&empty).unwrap(), Vec::<u64>::new());
    assert!(decode_complex_vector::<u32>(&empty).unwrap().is_empty());
    assert!(decode_complex_vector::<u64>(&empty).unwrap().is_empty());
    assert!(encode_real_vector::<u32>(&[]).is_empty());
    assert!(encode_real_vector::<u64>(&[]).is_empty());
    assert!(encode_complex_vector::<u32>(&[]).is_empty());
    assert!(encode_complex_vector::<u64>(&[]).is_empty());
}

#[test]
fn words_are_little_endian() {
    assert_eq!(encode_real_vector(&[0x3dde5a14u32]), vec![0x14, 0x5a, 0xde, 0x3d]);
    assert_eq!(
        encode_real_vector(&[0x0102030405060708u64]),
        vec![8, 7, 6, 5, 4, 3, 2, 1]
    );
    assert_eq!(
        decode_real_vector::<u32>(&[0x14, 0x5a, 0xde, 0x3d, 0, 0, 0, 0x80]).unwrap(),
        vec![0x3dde5a14u32, 0x80000000]
    );
    assert_eq!(
        decode_real_vector::<u64>(&[8, 7, 6, 5, 4, 3, 2, 1]).unwrap(),
        vec![0x0102030405060708u64]
    );
}

#[test]
fn complex_real_part_comes_first() {
    let v = vec![Complex::new(0x11223344u32, 0xaabbccddu32)];
    let bytes = encode_complex_vector(&v);
    assert_eq!(bytes, vec![0x44, 0x33, 0x22, 0x11, 0xdd, 0xcc, 0xbb, 0xaa]);
    assert_eq!(decode_complex_vector::<u32>(&bytes).unwrap(), v);
}

#[test]
fn length_of_decoded_vectors() {
    let bytes: Vec<u8> = (0..48u8).collect();
    assert_eq!(decode_real_vector::<u32>(&bytes).unwrap().len(), 12);
    assert_eq!(decode_real_vector::<u64>(&bytes).unwrap().len(), 6);
    assert_eq!(decode_complex_vector::<u32>(&bytes).unwrap().len(), 6);
    assert_eq!(decode_complex_vector::<u64>(&bytes).unwrap().len(), 3);
    assert_eq!(encode_real_vector(&decode_real_vector::<u64>(&bytes).unwrap()), bytes);
    assert_eq!(encode_complex_vector(&decode_complex_vector::<u32>(&bytes).unwrap()), bytes);
}

#[test]
fn values_survive_encode_then_decode() {
    let singles: Vec<u32> = vec![
        1.5f32.to_bits(),
        (-0.0f32).to_bits(),
        f32::INFINITY.to_bits(),
        0x7fc00001,
    ];
    let bytes = encode_real_vector(&singles);
    assert_eq!(bytes.len(), 16);
    assert_eq!(decode_real_vector::<u32>(&bytes).unwrap(), singles);

    let doubles: Vec<Complex<u64>> = vec![
        Complex::new(0.25f64.to_bits(), (-3.75f64).to_bits()),
        Complex::new(f64::MAX.to_bits(), f64::MIN_POSITIVE.to_bits()),
    ];
    let bytes = encode_complex_vector(&doubles);
    assert_eq!(bytes.len(), 32);
    assert_eq!(decode_complex_vector::<u64>(&bytes).unwrap(), doubles);
    let back: Vec<u64> = decode_real_vector::<u64>(&bytes).unwrap();
    assert_eq!(f64::from_bits(back[1]), -3.75);
}
