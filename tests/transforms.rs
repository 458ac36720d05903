use compress::bwt::{self, BwtError, Radix};
use compress::dc::{self, DcError};
use compress::mtf::{self, MTF};

fn sample_text(n: usize) -> Vec<u8> {
    let words: Vec<&str> = "the quick brown fox jumps over the lazy dog while a compression library turns repeated phrases into short references and rare symbols into long codes so that every byte of this sample text has a purpose".split(' ').collect();
    let mut out: Vec<u8> = Vec::new();
    let mut x: u64 = 12345;
    while out.len() < n {
        x = (x * 1103515245 + 12345) % (1u64 << 31);
        let w = words[((x >> 8) as usize) % words.len()];
        out.extend_from_slice(w.as_bytes());
        out.push(if (x >> 4) % 11 == 0 { b'\n' } else { b' ' });
    }
    out.truncate(n);
    out
}

fn roundtrip_dc(bytes: &[u8]) {
    let distances = dc::encode_simple(bytes);
    let decoded = dc::decode_simple(bytes.len(), &distances).unwrap();
    assert_eq!(&decoded[..], bytes);
}

fn roundtrip_mtf(bytes: &[u8]) {
    let mut m = MTF::new();
    m.reset_alphabetical();
    let ranks: Vec<u8> = bytes.iter().map(|&s| m.encode(s)).collect();
    m.reset_alphabetical();
    let decoded: Vec<u8> = ranks.iter().map(|&r| m.decode(r)).collect();
    assert_eq!(&decoded[..], bytes);
}

fn roundtrip_bwt_frame(bytes: &[u8], extra_mem: bool) {
    let encoded = bwt::frame_encode(bytes, 1 << 10);
    let decoded = bwt::frame_decode(&encoded, extra_mem).unwrap();
    assert_eq!(&decoded[..], bytes);
}

#[test]
fn some_roundtrips_dc() {
    roundtrip_dc(b"teeesst_dc");
    roundtrip_dc(b"");
    roundtrip_dc(&sample_text(4000));
}

#[test]
fn roundtrips_short() {
    roundtrip_dc(b"teeesst_dc");
    roundtrip_dc(b"");
    roundtrip_dc(&sample_text(1500));
}

#[test]
fn dc_roundtrips() {
    roundtrip_dc(b"teeesst_dc");
    roundtrip_dc(b"");
    roundtrip_dc(&sample_text(2500));
}

#[test]
fn dc_all_unique_and_abracadabra() {
    let all: Vec<u8> = (0..=255u8).collect();
    roundtrip_dc(&all);
    roundtrip_dc(b"abracadabra");
}

#[test]
fn dc_sweep_marks_repeats() {
    let input = b"aabccc";
    let mut distances = Vec::new();
    let mut m = MTF::new();
    let init = dc::encode(input, &mut distances, &mut m);
    let n = input.len();
    assert_eq!(distances.len(), n);
    for p in 0..n {
        let skipped = p + 1 < n && input[p + 1] == input[p];
        assert_eq!(distances[p] == n, skipped);
    }
    assert_eq!(init[b'a' as usize], 0);
    assert_eq!(init[b'b' as usize], 2);
    assert_eq!(init[b'c' as usize], 3);
    assert_eq!(init[b'z' as usize], n);
}

#[test]
fn dc_truncated_stream() {
    assert_eq!(dc::decode_simple(3, &[0usize; 100]), Err(DcError::UnexpectedEof));
    let mut d = dc::encode_simple(b"abab");
    d.truncate(256);
    assert_eq!(dc::decode_simple(4, &d), Err(DcError::UnexpectedEof));
}

#[test]
fn some_roundtrips_mtf() {
    roundtrip_mtf(b"teeesst_mtf");
    roundtrip_mtf(b"");
    roundtrip_mtf(&sample_text(4000));
}

#[test]
fn mtf_some_roundtrips() {
    let input = b"teeesst_mtf";
    let ranks = mtf::encode_all(input);
    assert_eq!(ranks.len(), input.len());
    assert_eq!(mtf::decode_all(&ranks), input.to_vec());
    assert_eq!(mtf::decode_all(&mtf::encode_all(b"")), Vec::<u8>::new());
}

#[test]
fn mtf_ranks_exact() {
    let mut m = MTF::new();
    m.reset_alphabetical();
    assert_eq!(m.encode(b'b'), 98);
    assert_eq!(m.encode(b'b'), 0);
    assert_eq!(m.encode(b'a'), 98);
    assert_eq!(m.encode(b'b'), 1);
    assert_eq!(m.symbols[0], b'b');
    assert_eq!(m.symbols[1], b'a');
    assert_eq!(m.decode(1), b'a');
    assert_eq!(m.symbols[0], b'a');
}

#[test]
fn bwt_banana() {
    let (out, origin) = bwt::encode_simple(b"banana");
    assert_eq!(&out[..], b"nnbaaa");
    assert_eq!(origin, 3);
    assert_eq!(bwt::decode_simple(&out, origin).unwrap(), b"banana".to_vec());
    let mut minimal = Vec::new();
    bwt::decode_minimal(&out, origin, &mut minimal).unwrap();
    assert_eq!(minimal, b"banana".to_vec());
}

#[test]
fn bwt_suffix_array_sorted() {
    let input = b"mississippi";
    let mut sa = Vec::new();
    bwt::compute_suffixes(input, &mut sa);
    assert_eq!(sa, vec![10, 7, 4, 1, 0, 9, 8, 6, 3, 5, 2]);
}

#[test]
fn bwt_invalid_origin() {
    assert_eq!(bwt::decode_simple(b"abc", 3), Err(BwtError::InvalidOrigin));
    let mut out = Vec::new();
    assert_eq!(bwt::decode_minimal(b"abc", 7, &mut out), Err(BwtError::InvalidOrigin));
    assert_eq!(bwt::frame_decode(&[1, 2], true), Err(BwtError::InvalidStream));
}

#[test]
fn bwt_some_roundtrips() {
    roundtrip_bwt_frame(b"test", true);
    roundtrip_bwt_frame(b"", true);
    roundtrip_bwt_frame(&sample_text(3000), true);
}

#[test]
fn mod_some_roundtrips() {
    roundtrip_bwt_frame(b"test", true);
    roundtrip_bwt_frame(b"", true);
    roundtrip_bwt_frame(&sample_text(2000), true);
}

#[test]
fn decode_minimal() {
    roundtrip_bwt_frame(b"abracadabra", false);
}

#[test]
fn radix_offsets_and_shift() {
    let mut r = Radix::new();
    r.gather(b"banana");
    r.accumulate();
    assert_eq!(r.freq[0], 0);
    assert_eq!(r.freq[b'a' as usize], 0);
    assert_eq!(r.freq[b'b' as usize], 3);
    assert_eq!(r.freq[b'n' as usize], 4);
    assert_eq!(r.freq[256], 6);
    for &b in b"banana" {
        r.place(b);
    }
    r.shift();
    assert_eq!(r.freq[0], 0);
    assert_eq!(r.freq[b'a' as usize], 0);
    assert_eq!(r.freq[b'b' as usize], 3);
    assert_eq!(r.freq[b'n' as usize], 4);
    assert_eq!(r.freq[256], 6);
    r.reset();
    assert_eq!(r.freq[256], 0);
}

#[test]
fn bwt_minimal_inverse_uses_origin() {
    for s in [&b"bab"[..], b"abracadabra", b"banana", b"a", b"mississippi", b"zzzyx"] {
        let (out, origin) = bwt::encode_simple(s);
        let mut minimal = Vec::new();
        bwt::decode_minimal(&out, origin, &mut minimal).unwrap();
        assert_eq!(&minimal[..], s);
        assert_eq!(&bwt::decode_simple(&out, origin).unwrap()[..], s);
    }
    let (out, origin) = bwt::encode_simple(b"bab");
    assert_eq!(origin, 2);
    let mut minimal = Vec::new();
    bwt::decode_minimal(&out, origin, &mut minimal).unwrap();
    assert_eq!(&minimal[..], b"bab");
}

#[test]
fn bwt_frame_minimal_memory() {
    let text = sample_text(3000);
    let encoded = bwt::frame_encode(&text, 500);
    assert_eq!(bwt::frame_decode(&encoded, false).unwrap(), text);
}
