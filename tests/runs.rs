use compress::rle::{self, RleError, RunBuilder};

fn test_encode(input: &[u8], output: &[u8]) {
    assert_eq!(output, &rle::encode(input)[..]);
}

fn test_decode(input: &[u8], output: &[u8]) {
    assert_eq!(output, &rle::decode(input).unwrap()[..]);
}

fn test_roundtrip(input: &[u8]) {
    let buf = rle::encode(input);
    assert_eq!(input, &rle::decode(&buf).unwrap()[..]);
}

#[test]
fn simple_encoding() {
    test_encode(b"", b"");
    test_encode(b"a", b"a");
    test_encode(b"abca123", b"abca123");
    test_encode(&[20, 20, 20, 20, 20, 15], &[20, 20, 5 - 2 + 128, 15]);
    test_encode(&[0, 0], &[0, 0, 2 - 2 + 128]);
}

#[test]
fn long_run_encoding() {
    let mut data = vec![5u8; 129];
    test_encode(&data[..], &[5, 5, 255]);
    data = vec![1, 3, 4, 4];
    data.extend(std::iter::repeat(100).take(2 + 52 + 128));
    test_encode(&data[..], &[1, 3, 4, 4, 0 + 128, 100, 100, 52, 1 + 128]);
}

#[test]
fn simple_decoding() {
    test_decode(b"", b"");
    test_decode(b"a", b"a");
    test_decode(b"abca123", b"abca123");
    test_decode(&[20, 20, 5 - 2 + 128, 15], &[20, 20, 20, 20, 20, 15]);
    test_decode(&[0, 0, 2 - 2 + 128], &[0, 0]);
}

#[test]
fn long_run_decoding() {
    let mut data = vec![1u8, 3, 4, 4];
    data.extend(std::iter::repeat(100).take(2 + 52 + 128));
    test_decode(&[1, 3, 4, 4, 0 + 128, 100, 100, 52, 1 + 128], &data[..]);
}

#[test]
fn random_roundtrips() {
    let mut x: u64 = 13579;
    for round in 0..100 {
        let mut buf = vec![0u8; 1357];
        for b in buf.iter_mut() {
            x = x.wrapping_mul(6364136223846793005).wrapping_add(1442695040888963407);
            *b = if round % 2 == 0 { (x >> 33) as u8 } else { ((x >> 33) % 3) as u8 };
        }
        test_roundtrip(&buf);
    }
}

#[test]
fn overly_long_run() {
    assert_eq!(rle::decode(&[7, 7, 0, 0, 0, 0, 0, 0, 0, 0, 0, 0]), Err(RleError::OverlyLongRun));
    let mut b = RunBuilder::new(9);
    assert_eq!(b.add_byte(3), Ok(()));
    assert_eq!(b.add_byte(1 | 0x80), Ok(()));
    let run = b.to_run();
    assert_eq!(run.byte, 9);
    assert_eq!(run.reps, 2 + 3 + 128);
}
