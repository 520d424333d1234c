use densely_packed_ternary::Base243PreDiv;
use densely_packed_ternary::Base3;
use densely_packed_ternary::Engine;
use densely_packed_ternary::Trit;
use densely_packed_ternary::BCT;
use densely_packed_ternary::DPT;

fn t(v: u8) -> Trit {
    Trit::try_from(v).unwrap()
}

fn sample() -> [Trit; 9] {
    [t(0), t(2), t(1), t(1), t(0), t(1), t(0), t(2), t(2)]
}

/// The five base-3 digits of `idx`, least significant first.
fn digits5(idx: u8) -> [Trit; 5] {
    let mut chunk = [Trit::zero(); 5];
    let mut v = idx;
    for elem in chunk.iter_mut() {
        *elem = (v % 3).try_into().unwrap();
        v /= 3;
    }
    chunk
}

#[test]
fn test_convert_between_u8() {
    let t2 = Trit::try_from(2u8);
    assert_eq!(t2, Ok(Trit::two()));
    let invalid_trit = Trit::try_from(3u8);
    assert_eq!(invalid_trit, Err(()));
}

#[test]
fn trit_conversions_cover_every_byte() {
    for x in 0..=255u8 {
        let r = Trit::try_from(x);
        if x < 3 {
            assert_eq!(u8::from(r.unwrap()), x);
        } else {
            assert_eq!(r, Err(()));
        }
    }
    assert_eq!(u8::from(Trit::zero()), 0);
    assert_eq!(u8::from(Trit::one()), 1);
    assert_eq!(u8::from(Trit::default()), 0);
}

#[test]
fn base3_test_encode_decode_chunk() {
    let engine = Base3::new();
    // 243: 3 ^ 5
    for idx in 0..243u8 {
        let chunk = digits5(idx);
        let encoded = engine.encode_chunk(&chunk);
        let decoded = engine.decode_chunk(encoded);
        assert_eq!(Some(chunk), decoded);
    }
}

#[test]
fn base3_test_encode_decode() {
    let engine = Base3::new();
    let input = sample();
    assert_eq!(engine.encoded_size(&input), 2);
    let mut encoded = [0u8; 2];
    engine.encode_slice(&mut encoded, &input);

    assert!(engine.decoded_size(&encoded) >= 9);
    let mut decoded = [Default::default(); 9];
    engine.decode_slice(&mut decoded, &encoded);
    assert_eq!(input, decoded);
}

#[test]
fn base243_prediv_test_encode_decode_chunk() {
    let engine = Base243PreDiv::new();
    // 243: 3 ^ 5
    for idx in 0..243u8 {
        let chunk = digits5(idx);
        let encoded = engine.encode_chunk(&chunk);
        let decoded = engine.decode_chunk(encoded);
        assert_eq!(Some(chunk), decoded);
    }
}

#[test]
fn base243_prediv_test_encode_decode() {
    let engine = Base243PreDiv::new();
    let input = sample();
    assert_eq!(engine.encoded_size(&input), 2);
    let mut encoded = [0u8; 2];
    engine.encode_slice(&mut encoded, &input);

    assert!(engine.decoded_size(&encoded) >= 9);
    let mut decoded = [Default::default(); 9];
    engine.decode_slice(&mut decoded, &encoded);
    assert_eq!(input, decoded);
}

#[test]
fn bct_test_encode_decode() {
    let engine = BCT::new();
    let input = sample();

    assert_eq!(engine.encoded_size(&input), 3);
    let mut encoded = [0u8; 3];
    engine.encode_slice(&mut encoded, &input);

    assert!(engine.decoded_size(&encoded) >= 9);
    let mut decoded = [Default::default(); 9];
    engine.decode_slice(&mut decoded, &encoded);
    assert_eq!(input, decoded);
}

#[test]
fn dpt_test_encode_decode_chunk() {
    let engine = DPT::new();
    // 243: 3 ^ 5
    for idx in 0..243u8 {
        let chunk = digits5(idx);
        let encoded = engine.encode_chunk(&chunk);
        let decoded = engine.decode_chunk(encoded);
        assert_eq!(chunk, decoded);
    }
}

#[test]
fn dpt_test_encode_decode() {
    let engine = DPT::new();
    let input = sample();
    assert_eq!(engine.encoded_size(&input), 2);
    let mut encoded = [0u8; 2];
    engine.encode_slice(&mut encoded, &input);

    assert!(engine.decoded_size(&encoded) >= 9);
    let mut decoded = [Default::default(); 9];
    engine.decode_slice(&mut decoded, &encoded);
    assert_eq!(input, decoded);
}
