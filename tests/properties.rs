use densely_packed_ternary::Base243PreDiv;
use densely_packed_ternary::Base3;
use densely_packed_ternary::Engine;
use densely_packed_ternary::Trit;
use densely_packed_ternary::BCT;
use densely_packed_ternary::DPT;

fn trits(vals: &[u8]) -> Vec<Trit> {
    vals.iter().map(|v| Trit::try_from(*v).unwrap()).collect()
}

fn pattern(len: usize) -> Vec<Trit> {
    (0..len).map(|i| Trit::try_from(((i * 7 + i / 3) % 3) as u8).unwrap()).collect()
}

fn round_trip<E: Engine>(engine: &E, original: &[Trit]) {
    let size = engine.encoded_size(original);
    let mut encoded = vec![0xA5u8; size + 2];
    assert_eq!(engine.encode_slice(&mut encoded, original), Some(size));
    assert_eq!(encoded[size], 0xA5);
    assert_eq!(encoded[size + 1], 0xA5);
    assert!(engine.decoded_size(&encoded[..size]) >= original.len());
    let mut decoded = vec![Trit::default(); original.len()];
    assert_eq!(engine.decode_slice(&mut decoded, &encoded[..size]), Some(()));
    assert_eq!(decoded, original);
}

#[test]
fn encoded_size_is_ceiling() {
    let lens_5 = [(0usize, 0usize), (1, 1), (4, 1), (5, 1), (6, 2), (9, 2), (10, 2), (11, 3)];
    for (len, want) in lens_5 {
        let t = pattern(len);
        assert_eq!(Base3::new().encoded_size(&t), want);
        assert_eq!(Base243PreDiv::new().encoded_size(&t), want);
        assert_eq!(DPT::new().encoded_size(&t), want);
    }
    let lens_4 = [(0usize, 0usize), (1, 1), (4, 1), (5, 2), (8, 2), (9, 3)];
    for (len, want) in lens_4 {
        assert_eq!(BCT::new().encoded_size(&pattern(len)), want);
    }
}

#[test]
fn decoded_size_is_product() {
    let bytes = [0u8; 7];
    assert_eq!(Base3::new().decoded_size(&bytes), 35);
    assert_eq!(Base243PreDiv::new().decoded_size(&bytes), 35);
    assert_eq!(DPT::new().decoded_size(&bytes), 35);
    assert_eq!(BCT::new().decoded_size(&bytes), 28);
    assert_eq!(DPT::new().decoded_size(&[]), 0);
}

#[test]
fn slices_round_trip_for_every_length() {
    for len in 0..40 {
        let t = pattern(len);
        round_trip(&Base3::new(), &t);
        round_trip(&Base243PreDiv::new(), &t);
        round_trip(&BCT::new(), &t);
        round_trip(&DPT::new(), &t);
    }
}

#[test]
fn encode_fails_on_short_buffer() {
    let t = pattern(11);
    let mut short = [7u8; 2];
    assert_eq!(Base3::new().encode_slice(&mut short, &t), None);
    assert_eq!(Base243PreDiv::new().encode_slice(&mut short, &t), None);
    assert_eq!(DPT::new().encode_slice(&mut short, &t), None);
    assert_eq!(short, [7u8; 2]);
    let mut bct_short = [7u8; 2];
    assert_eq!(BCT::new().encode_slice(&mut bct_short, &pattern(9)), None);
    let mut exact = [0u8; 3];
    assert_eq!(BCT::new().encode_slice(&mut exact, &pattern(9)), Some(3));
    let mut empty: [u8; 0] = [];
    assert_eq!(DPT::new().encode_slice(&mut empty, &[]), Some(0));
}

#[test]
fn decode_fails_when_asking_too_many() {
    let bytes = [0u8; 2];
    let mut out = vec![Trit::default(); 11];
    assert_eq!(Base3::new().decode_slice(&mut out, &bytes), None);
    assert_eq!(Base243PreDiv::new().decode_slice(&mut out, &bytes), None);
    assert_eq!(DPT::new().decode_slice(&mut out, &bytes), None);
    let mut out9 = vec![Trit::default(); 9];
    assert_eq!(BCT::new().decode_slice(&mut out9, &bytes), None);
    let mut out10 = vec![Trit::default(); 10];
    assert_eq!(DPT::new().decode_slice(&mut out10, &bytes), Some(()));
}

#[test]
fn chunk_values_are_exact() {
    let c = trits(&[0, 2, 1, 1, 0]);
    assert_eq!(Base3::new().encode_chunk(&c), 42);
    assert_eq!(Base243PreDiv::new().encode_chunk(&c), 70);
    assert_eq!(DPT::new().encode_chunk(&c), 0x46);
    assert_eq!(BCT::new().encode_chunk(&c[..4]), 88);
    let top = trits(&[2, 2, 2, 2, 2]);
    assert_eq!(Base3::new().encode_chunk(&top), 242);
    assert_eq!(Base243PreDiv::new().encode_chunk(&top), 255);
    assert_eq!(DPT::new().encode_chunk(&top), 0xAB);
    assert_eq!(BCT::new().encode_chunk(&top[..4]), 0b1010_1010);
    // a short chunk is padded with zeros
    assert_eq!(Base3::new().encode_chunk(&trits(&[1, 2])), 7);
    assert_eq!(Base243PreDiv::new().encode_chunk(&trits(&[0, 0, 0, 0, 1])), 2);
}

#[test]
fn dpt_layouts_are_exact() {
    let engine = DPT::new();
    // small, small; last trit small and large
    assert_eq!(engine.encode_chunk(&trits(&[1, 0, 1, 0, 1])), 0b0001_1001);
    assert_eq!(engine.encode_chunk(&trits(&[1, 0, 1, 0, 2])), 0b1001_0001);
    // small, large
    assert_eq!(engine.encode_chunk(&trits(&[1, 0, 2, 2, 1])), 0b1001_1101);
    // large, small
    assert_eq!(engine.encode_chunk(&trits(&[2, 2, 0, 1, 2])), 0b1011_1010);
    // large, large
    assert_eq!(engine.encode_chunk(&trits(&[2, 2, 2, 2, 0])), 0b1000_1011);
    assert_eq!(engine.encode_chunk(&trits(&[2, 2, 2, 2, 1])), 0b1001_1011);
    assert_eq!(engine.decode_chunk(0b1001_1101).to_vec(), trits(&[1, 0, 2, 2, 1]));
}

#[test]
fn base3_rejects_high_bytes() {
    let engine = Base3::new();
    for b in 243..=255u8 {
        assert_eq!(engine.decode_chunk(b), None);
        let mut out = vec![Trit::default(); 3];
        assert_eq!(engine.decode_slice(&mut out, &[0, b]), Some(()));
        let mut out = vec![Trit::default(); 6];
        assert_eq!(engine.decode_slice(&mut out, &[0, b]), None);
    }
    assert_eq!(engine.decode_chunk(242).unwrap().to_vec(), trits(&[2, 2, 2, 2, 2]));
}

#[test]
fn bct_rejects_field_three() {
    let engine = BCT::new();
    assert_eq!(engine.decode_chunk(0b0000_0011), None);
    assert_eq!(engine.decode_chunk(0b1100_0000), None);
    assert_eq!(engine.decode_chunk(0b1001_1000).unwrap().to_vec(), trits(&[0, 2, 1, 2]));
    let mut out = vec![Trit::default(); 4];
    assert_eq!(engine.decode_slice(&mut out, &[0b0011_0000]), None);
}

#[test]
fn full_range_codecs_decode_every_byte() {
    for b in 0..=255u8 {
        let p = Base243PreDiv::new().decode_chunk(b);
        assert!(p.is_some());
        let d = DPT::new().decode_chunk(b);
        let mut out = vec![Trit::default(); 5];
        assert_eq!(DPT::new().decode_slice(&mut out, &[b]), Some(()));
        assert_eq!(out, d.to_vec());
    }
}

#[test]
fn dpt_codes_are_distinct() {
    let engine = DPT::new();
    let mut seen = [false; 256];
    let mut count = 0;
    for idx in 0..243u32 {
        let mut v = idx;
        let mut chunk = Vec::new();
        for _ in 0..5 {
            chunk.push(Trit::try_from((v % 3) as u8).unwrap());
            v /= 3;
        }
        let mut encoded = [0u8; 1];
        assert_eq!(engine.encode_slice(&mut encoded, &chunk), Some(1));
        assert!(!seen[encoded[0] as usize]);
        seen[encoded[0] as usize] = true;
        let mut decoded = vec![Trit::default(); 5];
        assert_eq!(engine.decode_slice(&mut decoded, &encoded), Some(()));
        assert_eq!(decoded, chunk);
        count += 1;
    }
    assert_eq!(count, 243);
}

#[test]
fn prediv_codes_are_ordered() {
    let engine = Base243PreDiv::new();
    let mut last: Option<u8> = None;
    for idx in 0..243u32 {
        // most significant trit first
        let mut v = idx;
        let mut chunk = vec![Trit::default(); 5];
        for k in (0..5).rev() {
            chunk[k] = Trit::try_from((v % 3) as u8).unwrap();
            v /= 3;
        }
        let b = engine.encode_chunk(&chunk);
        if let Some(prev) = last {
            assert!(b > prev);
        }
        last = Some(b);
    }
}
