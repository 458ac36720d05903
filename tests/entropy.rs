use compress::apm::{BinCoords, Bit, Gate};
use compress::ari::{AriError, Decoder, Encoder, Model, RangeEncoder, RANGE_DEFAULT_THRESHOLD};
use compress::bin::{BinaryModel, BinarySumProxy};
use compress::table::{ByteDecoder, ByteEncoder, FrequencyTable, TableSumProxy};

fn sample_text(n: usize) -> Vec<u8> {
    let words: Vec<&str> = "the quick brown fox jumps over the lazy dog while a compression library turns repeated phrases into short references and rare symbols into long codes so that every byte of this sample text has a purpose".split(' ').collect();
    let mut out: Vec<u8> = Vec::new();
    let mut x: u64 = 12345;
    while out.len() < n {
        x = (x * 1103515245 + 12345) % (1u64 << 31);
        let w = words[((x >> 8) as usize) % words.len()];
        out.extend_from_slice(w.as_bytes());
        out.push(if (x >> 4) % 11 == 0 { b'\n' } else { b' ' });
    }
    out.truncate(n);
    out
}

fn decode_all(d: &mut ByteDecoder) -> Vec<u8> {
    let mut out = Vec::new();
    while !d.is_eof {
        let chunk = d.read(4096).unwrap();
        out.extend_from_slice(&chunk);
    }
    out
}

fn roundtrip(bytes: &[u8]) {
    let mut e = ByteEncoder::new();
    e.write(bytes);
    let encoded = e.finish();
    let mut d = ByteDecoder::new(encoded);
    assert_eq!(&decode_all(&mut d)[..], bytes);
}

fn roundtrip_binary(bytes: &[u8], factor: u32) {
    let mut bm = BinaryModel::new_flat(RANGE_DEFAULT_THRESHOLD >> 3, factor);
    let mut encoder = Encoder::new();
    for &byte in bytes.iter() {
        for i in 0..8 {
            let bit = (byte & (1 << i)) != 0;
            encoder.encode(bit, &bm);
            bm.update(bit);
        }
    }
    let output = encoder.finish();
    bm.reset_flat();
    let mut decoder = Decoder::new(output);
    for &byte in bytes.iter() {
        let mut value = 0u8;
        for i in 0..8 {
            let bit = decoder.decode(&bm).unwrap();
            bm.update(bit);
            value += (bit as u8) << i;
        }
        assert_eq!(value, byte);
    }
}

fn roundtrip_term(bytes1: &[u8], bytes2: &[u8]) {
    let mut e = ByteEncoder::new();
    e.write(bytes1);
    let mut stream = e.finish();
    let mut e = ByteEncoder::new();
    e.write(bytes2);
    stream.extend_from_slice(&e.finish());
    let mut d = ByteDecoder::new(stream.clone());
    assert_eq!(&decode_all(&mut d)[..], bytes1);
    let pos = d.finish().unwrap();
    let mut d = ByteDecoder::new(stream[pos..].to_vec());
    assert_eq!(&decode_all(&mut d)[..], bytes2);
    let rest = d.finish().unwrap();
    assert_eq!(pos + rest, stream.len());
}

fn roundtrip_proxy(bytes: &[u8]) {
    let update0 = 10;
    let update1 = 5;
    let threshold = RANGE_DEFAULT_THRESHOLD >> 3;
    let mut t0 = FrequencyTable::new_flat(16, threshold);
    let mut t1 = FrequencyTable::new_flat(16, threshold);
    let mut b0 = BinaryModel::new_flat(threshold, 3);
    let mut b1 = BinaryModel::new_flat(threshold, 5);
    let mut encoder = Encoder::new();
    for &byte in bytes.iter() {
        let high = (byte >> 4) as usize;
        {
            let proxy = TableSumProxy::new(2, &t0, 1, &t1, 0);
            encoder.encode(high, &proxy);
        }
        t0.update(high, update0, 1);
        t1.update(high, update1, 1);
        for i in 0..4 {
            let bit = (byte & (1 << i)) != 0;
            {
                let proxy = BinarySumProxy::new(1, &b0, 1, &b1, 1);
                encoder.encode(bit, &proxy);
            }
            b0.update(bit);
            b1.update(bit);
        }
    }
    let buffer = encoder.finish();
    t0.reset_flat();
    t1.reset_flat();
    b0.reset_flat();
    b1.reset_flat();
    let mut decoder = Decoder::new(buffer);
    for &byte in bytes.iter() {
        let high = {
            let proxy = TableSumProxy::new(2, &t0, 1, &t1, 0);
            decoder.decode(&proxy).unwrap()
        };
        t0.update(high, update0, 1);
        t1.update(high, update1, 1);
        let mut value = (high << 4) as u8;
        for i in 0..4 {
            let bit = {
                let proxy = BinarySumProxy::new(1, &b0, 1, &b1, 1);
                decoder.decode(&proxy).unwrap()
            };
            value += (bit as u8) << i;
            b0.update(bit);
            b1.update(bit);
        }
        assert_eq!(value, byte);
    }
}

fn to_wide(fp: u16) -> i16 {
    let p = (fp as f32) / 4096.0;
    let d = (p / (1.0 - p)).ln();
    (d * 2048.0) as i16
}

fn pass(gate: &Gate, bit: &Bit) -> (Bit, BinCoords) {
    let (fp, coords) = gate.pass_wide(to_wide(bit.to_flat()));
    (Bit::from_flat(fp), coords)
}

fn roundtrip_apm(bytes: &[u8]) {
    let mut bit = Bit::new_equal();
    let mut gate = Gate::new();
    let mut encoder = Encoder::new();
    for b8 in bytes.iter() {
        for i in 0..8 {
            let b1 = (*b8 >> i) & 1 != 0;
            let (bit_new, coords) = pass(&gate, &bit);
            encoder.encode(b1, &bit_new);
            bit.update(b1, 10, 0);
            gate.update(b1, coords, 10, 0);
        }
    }
    let output = encoder.finish();
    bit = Bit::new_equal();
    gate = Gate::new();
    let mut decoder = Decoder::new(output);
    for b8 in bytes.iter() {
        let mut decoded = 0u8;
        for i in 0..8 {
            let (bit_new, coords) = pass(&gate, &bit);
            let b1 = decoder.decode(&bit_new).unwrap();
            if b1 {
                decoded += 1 << i;
            }
            bit.update(b1, 10, 0);
            gate.update(b1, coords, 10, 0);
        }
        assert_eq!(decoded, *b8);
    }
}

#[test]
fn test_roundtrips() {
    roundtrip(b"abracadabra");
    roundtrip(b"");
    roundtrip(&sample_text(10240));
}

#[test]
fn ari_roundtrips() {
    roundtrip(b"abracadabra");
    roundtrip(&sample_text(3000));
}

#[test]
fn test_roundtrips_binary() {
    roundtrip_binary(b"abracadabra", 1);
    roundtrip_binary(&sample_text(3000), 5);
}

#[test]
fn ari_roundtrips_binary() {
    roundtrip_binary(b"abracadabra", 1);
}

#[test]
fn test_roundtrips_term() {
    roundtrip_term(b"abra", b"cadabra");
}

#[test]
fn test_roundtrips_proxy() {
    roundtrip_proxy(b"abracadabra");
    roundtrip_proxy(&sample_text(3000));
}

#[test]
fn ari_roundtrips_proxy() {
    roundtrip_proxy(b"abracadabra");
}

#[test]
fn roundtrips_apm() {
    roundtrip_apm(b"abracadabra");
}

#[test]
fn ari_truncated_stream() {
    let mut d = ByteDecoder::new(vec![1, 2]);
    assert_eq!(d.read(10), Err(AriError::UnexpectedEof));
}

#[test]
fn range_coder_shifts_bytes() {
    let mut re = RangeEncoder::new(RANGE_DEFAULT_THRESHOLD);
    let mut out = Vec::new();
    assert_eq!(re.process(4, 0, 1, &mut out), 0);
    assert_eq!(re.low, 0);
    assert_eq!(re.hai, 0x3fffffff);
    let n = re.process(256, 5, 6, &mut out);
    assert_eq!(n, 1);
    assert_eq!(out, vec![0x01]);
    assert_eq!(re.query(4, re.low), 0);
    let tail = re.get_code_tail();
    assert_eq!(re.low, 0);
    assert!(tail > 0);
}

#[test]
fn binary_model_updates() {
    let mut bm = BinaryModel::new_flat(2048, 1);
    assert_eq!(bm.get_probability_zero(), 1024);
    bm.update_zero();
    assert_eq!(bm.get_probability_zero(), 1536);
    assert_eq!(bm.get_probability_one(), 512);
    bm.update_one();
    assert_eq!(bm.get_probability_zero(), 768);
    let custom = BinaryModel::new_custom(25, 1000, 4);
    assert_eq!(custom.get_probability_zero(), 250);
    assert_eq!(custom.get_range(true), (250, 1000));
    assert_eq!(custom.find_value(249), (false, 0, 250));
}

#[test]
fn frequency_table_stays_consistent() {
    let mut ft = FrequencyTable::new_flat(4, 100);
    ft.update(1, 0, 20);
    assert_eq!(ft.get_frequencies(), &[1, 25, 1, 1]);
    assert_eq!(ft.total, 28);
    ft.update(2, 0, 80);
    let sum: u32 = ft.get_frequencies().iter().map(|&f| f as u32).sum();
    assert_eq!(ft.total, sum);
    assert!(ft.total < 100);
    assert!(ft.get_frequencies().iter().all(|&f| f > 0));
    assert_eq!(ft.get_range(2), (14, 14 + ft.get_frequencies()[2] as u32));
    let (v, lo, hi) = ft.find_value(14);
    assert_eq!(v, 2);
    assert!(lo <= 14 && 14 < hi);
    let custom = FrequencyTable::new_custom(vec![3, 1, 200], 128);
    assert_eq!(custom.get_frequencies(), &[2, 1, 100]);
    assert_eq!(custom.get_denominator(), 103);
}

#[test]
fn apm_bit_and_gate() {
    let mut b = Bit::new_equal();
    assert_eq!(b.to_flat(), 2048);
    b.update_zero(10, 0);
    assert_eq!(b.to_flat(), 2050);
    b.update_one(1, 0);
    assert_eq!(b.to_flat(), 1025);
    let g = Gate::new();
    assert_eq!(g.pass_wide(0), (2048, (8, 0)));
    assert_eq!(g.pass_wide(-2048), (1101, (0, 0)));
    assert_eq!(g.pass_wide(128), (2111, (8, 128)));
}

#[test]
fn roundtrips() {
    roundtrip(b"abracadabra");
}

#[test]
fn roundtrips_binary() {
    roundtrip_binary(b"abracadabra", 1);
}

#[test]
fn roundtrips_term() {
    roundtrip_term(b"abra", b"cadabra");
}

#[test]
fn roundtrips_proxy() {
    roundtrip_proxy(b"abracadabra");
}
