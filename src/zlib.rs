//! zlib (RFC 1950) framing around a DEFLATE stream.

use vstd::prelude::*;
use crate::adler::{adler32, checksum};
use crate::flate::{inflate, inflate_fails, inflates_to, lemma_inflates_to_unique, FlateError};

verus! {

/// What can go wrong while decoding a zlib stream.
#[derive(PartialEq, Eq, Structural, Debug, Clone, Copy)]
pub enum ZlibError {
    /// The input ended inside the header or the trailer.
    UnexpectedEof,
    /// The compression method is not DEFLATE.
    UnsupportedFormat,
    /// The window size is not 32 KiB.
    UnsupportedWindowSize,
    /// The stream asks for a preset dictionary.
    PresetDictionary,
    /// `CMF * 256 + FLG` is not a multiple of 31.
    InvalidHeaderChecksum,
    /// The Adler-32 trailer does not match the decoded data.
    ChecksumMismatch,
    /// The DEFLATE payload is invalid.
    Flate(FlateError),
}

/// The 32-bit big-endian integer at byte `p` of `data`.
pub open spec fn be32(data: Seq<u8>, p: int) -> int {
    data[p] as int * 0x1000000 + data[p + 1] as int * 0x10000 + data[p + 2] as int * 0x100 + data[p + 3] as int
}

/// Whether a two-byte zlib header is one this decoder accepts, and if not,
/// which check fails first.
pub open spec fn header_error(cmf: u8, flg: u8) -> Option<ZlibError> {
    if cmf % 16 != 8 {
        Some(ZlibError::UnsupportedFormat)
    } else if cmf / 16 != 7 {
        Some(ZlibError::UnsupportedWindowSize)
    } else if (flg / 32) % 2 == 1 {
        Some(ZlibError::PresetDictionary)
    } else if (cmf as int * 256 + flg as int) % 31 != 0 {
        Some(ZlibError::InvalidHeaderChecksum)
    } else {
        None
    }
}

/// The DEFLATE payload after the two header bytes decodes to `out`, and the
/// four bytes right after it hold `adler32(out)`, big-endian.
pub open spec fn trailer_matches(input: Seq<u8>, out: Seq<u8>) -> bool {
    exists|end: int|
        #[trigger] inflates_to(input.subrange(2, input.len() as int), out, end) && 2 + end + 4 <= input.len() && be32(
            input,
            2 + end,
        ) == adler32(out)
}

/// The DEFLATE payload after the two header bytes decodes to `out`, ending
/// before byte `2 + end`, and the four bytes there do not hold
/// `adler32(out)`.
pub open spec fn trailer_wrong(input: Seq<u8>, out: Seq<u8>, end: int) -> bool {
    inflates_to(input.subrange(2, input.len() as int), out, end) && 2 + end + 4 <= input.len() && be32(input, 2 + end)
        != adler32(out)
}

/// Checks a zlib header.
pub fn validate_header(cmf: u8, flg: u8) -> (r: Result<(), ZlibError>)
    ensures
        r is Ok <==> header_error(cmf, flg) is None,
        r is Err ==> header_error(cmf, flg) == Some(r->Err_0),
{
    let lo = cmf & 0xf;
    let hi = cmf & 0xf0;
    let dict = flg & 0x20;
    assert(lo == cmf % 16 && (hi == 0x70 <==> cmf / 16 == 7) && (dict != 0 <==> (flg / 32) % 2 == 1))
        by (bit_vector)
        requires
            lo == cmf & 0xf,
            hi == cmf & 0xf0,
            dict == flg & 0x20,
    ;
    if lo != 0x8 {
        return Err(ZlibError::UnsupportedFormat);
    }
    if hi != 0x70 {
        return Err(ZlibError::UnsupportedWindowSize);
    }
    if dict != 0 {
        return Err(ZlibError::PresetDictionary);
    }
    if ((cmf as u16) * 256 + (flg as u16)) % 31 != 0 {
        return Err(ZlibError::InvalidHeaderChecksum);
    }
    Ok(())
}

/// Decodes a whole zlib stream: header, DEFLATE payload, Adler-32 trailer.
#[verifier::rlimit(100)]
#[verifier::spinoff_prover]
pub fn decode(input: &[u8]) -> (r: Result<Vec<u8>, ZlibError>)
    requires
        input@.len() < usize::MAX / 8,
    ensures
        input@.len() < 2 ==> r == Err::<Vec<u8>, ZlibError>(ZlibError::UnexpectedEof),
        input@.len() >= 2 && header_error(input@[0], input@[1]) is Some ==> r == Err::<Vec<u8>, ZlibError>(
            header_error(input@[0], input@[1])->0,
        ),
        r matches Ok(out) ==> {
            &&& header_error(input@[0], input@[1]) is None
            &&& trailer_matches(input@, out@)
        },
        r == Err::<Vec<u8>, ZlibError>(ZlibError::UnsupportedFormat) || r == Err::<Vec<u8>, ZlibError>(
            ZlibError::UnsupportedWindowSize,
        ) || r == Err::<Vec<u8>, ZlibError>(ZlibError::PresetDictionary) || r == Err::<Vec<u8>, ZlibError>(
            ZlibError::InvalidHeaderChecksum,
        ) ==> input@.len() >= 2 && header_error(input@[0], input@[1]) == Some(r->Err_0),
        r == Err::<Vec<u8>, ZlibError>(ZlibError::ChecksumMismatch) ==> exists|out: Seq<u8>, end: int|
            #[trigger] inflates_to(input@.subrange(2, input@.len() as int), out, end) && 2 + end + 4 <= input@.len()
                && be32(input@, 2 + end) != adler32(out),
        r matches Err(ZlibError::Flate(e)) ==> inflate_fails(input@.subrange(2, input@.len() as int), e),
        forall|o: Seq<u8>|
            #[trigger] trailer_matches(input@, o) && input@.len() >= 2 && header_error(input@[0], input@[1]) is None
                ==> (r matches Ok(v) && v@ == o),
        forall|o: Seq<u8>, e: int|
            #[trigger] trailer_wrong(input@, o, e) && input@.len() >= 2 && header_error(input@[0], input@[1]) is None
                ==> r == Err::<Vec<u8>, ZlibError>(ZlibError::ChecksumMismatch),
        input@.len() >= 2 && header_error(input@[0], input@[1]) is None && r == Err::<Vec<u8>, ZlibError>(
            ZlibError::UnexpectedEof,
        ) ==> exists|out: Seq<u8>, end: int|
            #[trigger] inflates_to(input@.subrange(2, input@.len() as int), out, end) && 2 + end + 4 > input@.len(),
{
    if input.len() < 2 {
        return Err(ZlibError::UnexpectedEof);
    }
    validate_header(input[0], input[1])?;
    let mut body: Vec<u8> = Vec::new();
    let mut i: usize = 2;
    while i < input.len()
        invariant
            2 <= i <= input@.len(),
            body@ == input@.subrange(2, i as int),
        decreases input.len() - i,
    {
        body.push(input[i]);
        proof {
            assert(input@.subrange(2, i as int + 1) =~= input@.subrange(2, i as int).push(input@[i as int]));
        }
        i = i + 1;
    }
    assert(body@ =~= input@.subrange(2, input@.len() as int));
    let ghost sub = input@.subrange(2, input@.len() as int);
    let (out, end) = match inflate(body.as_slice()) {
        Ok(v) => v,
        Err(e) => {
            proof {
                assert forall|o: Seq<u8>| #[trigger] trailer_matches(input@, o) implies false by {
                    let en = choose|en: int|
                        #[trigger] inflates_to(sub, o, en) && 2 + en + 4 <= input@.len() && be32(input@, 2 + en) == adler32(o);
                    lemma_inflates_to_unique(sub, o, en, o, en, e);
                }
                assert forall|o: Seq<u8>, en: int| #[trigger] trailer_wrong(input@, o, en) implies false by {
                    lemma_inflates_to_unique(sub, o, en, o, en, e);
                }
            }
            return Err(ZlibError::Flate(e));
        },
    };
    proof {
        assert forall|o: Seq<u8>, en: int| inflates_to(sub, o, en) implies o == out@ && en == end by {
            lemma_inflates_to_unique(sub, o, en, out@, end as int, FlateError::UnexpectedEof);
        }
    }
    assert(body@ =~= input@.subrange(2, input@.len() as int));
    let t = 2 + end;
    if input.len() < 4 || t > input.len() - 4 {
        assert(inflates_to(input@.subrange(2, input@.len() as int), out@, end as int));
        proof {
            assert forall|o: Seq<u8>| #[trigger] trailer_matches(input@, o) implies false by {
                let en = choose|en: int|
                    #[trigger] inflates_to(sub, o, en) && 2 + en + 4 <= input@.len() && be32(input@, 2 + en) == adler32(o);
                assert(inflates_to(sub, o, en));
            }
            assert forall|o: Seq<u8>, en: int| #[trigger] trailer_wrong(input@, o, en) implies false by {
                assert(inflates_to(sub, o, en));
            }
        }
        return Err(ZlibError::UnexpectedEof);
    }
    let stored = (input[t] as u32) * 0x1000000 + (input[t + 1] as u32) * 0x10000 + (input[t + 2] as u32)
        * 0x100 + input[t + 3] as u32;
    let sum = checksum(out.as_slice());
    assert(stored == be32(input@, t as int));
    if stored != sum {
        assert(inflates_to(input@.subrange(2, input@.len() as int), out@, end as int));
        proof {
            assert forall|o: Seq<u8>| #[trigger] trailer_matches(input@, o) implies false by {
                let en = choose|en: int|
                    #[trigger] inflates_to(sub, o, en) && 2 + en + 4 <= input@.len() && be32(input@, 2 + en) == adler32(o);
                assert(inflates_to(sub, o, en));
            }
        }
        return Err(ZlibError::ChecksumMismatch);
    }
    assert(be32(input@, t as int) == adler32(out@));
    assert(inflates_to(input@.subrange(2, input@.len() as int), out@, end as int));
    assert(2 + end as int + 4 <= input@.len() && be32(input@, 2 + end as int) == adler32(out@));
    assert(trailer_matches(input@, out@));
    proof {
        assert forall|o: Seq<u8>| #[trigger] trailer_matches(input@, o) implies o == out@ by {
            let en = choose|en: int|
                #[trigger] inflates_to(sub, o, en) && 2 + en + 4 <= input@.len() && be32(input@, 2 + en) == adler32(o);
            assert(inflates_to(sub, o, en));
        }
        assert forall|o: Seq<u8>, en: int| #[trigger] trailer_wrong(input@, o, en) implies false by {
            assert(inflates_to(sub, o, en));
        }
    }
    Ok(out)
}

} // verus!
