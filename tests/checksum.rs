use compress::adler::{checksum, State32};

#[test]
fn adler32_reference_values() {
    assert_eq!(checksum(b""), 1);
    assert_eq!(checksum(b"a"), 0x00620062);
    assert_eq!(checksum(b"abc"), 0x024d0127);
}

#[test]
fn adler32_incremental_and_reset() {
    let mut st = State32::new();
    st.feed(b"ab");
    st.feed(b"c");
    assert_eq!(st.result(), 0x024d0127);
    st.reset();
    assert_eq!(st.result(), 1);
    st.feed(b"abracadabra");
    assert_eq!(st.result(), checksum(b"abracadabra"));
}

#[test]
fn adler32_wraps_modulo() {
    let data = vec![255u8; 6000];
    let mut a: u64 = 1;
    let mut b: u64 = 0;
    for &x in data.iter() {
        a = (a + x as u64) % 65521;
        b = (b + a) % 65521;
    }
    assert_eq!(checksum(&data), ((b << 16) | a) as u32);
}
