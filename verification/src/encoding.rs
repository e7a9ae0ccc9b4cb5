//! Content encodings that responses may be sent with.

use flate2::bufread::GzDecoder;
use flate2::write::GzEncoder;
use flate2::Compression;
use std::io::Read;
use std::io::Write;
use crate::text::{chars_of, split, split_exec, trim, trim_exec};
use vstd::prelude::*;

verus! {

/// `std::io::Error`, the error type of the gzip streams.
#[verifier::external_type_specification]
#[verifier::external_body]
pub struct ExIoError(std::io::Error);

/// What a gzip encoder at the default compression level, with the default
/// header, produces for `data` (see `gzip_encode`): `None` when the encoder
/// reports an error.
pub uninterp spec fn gzip_stream(data: Seq<u8>) -> Option<Seq<u8>>;

/// What a gzip decoder yields when it reads `data` to its end: `None` when
/// the decoder reports an error.
pub uninterp spec fn gunzip(data: Seq<u8>) -> Option<Seq<u8>>;

/// Compresses `data` with `flate2::write::GzEncoder` (default level), by one
/// `write` of the data followed by `finish`.
///
/// Trusted: it succeeds exactly when `gzip_stream(data)` is `Some`, and then
/// gives that stream (the encoder writes into a `Vec` with a fixed header,
/// level and buffer, so the outcome depends on `data` alone).
/// `GzEncoder::write` consumes
/// some prefix of its input (all of it whenever the encoder's buffer has
/// room), updates the CRC over that prefix, and `finish` ends the member; so
/// decoding the stream gives back that prefix of `data`. How long the prefix
/// is, is not stated.
#[verifier::external_body]
fn gzip_encode(data: Vec<u8>) -> (r: Result<Vec<u8>, std::io::Error>)
    ensures
        r is Ok <==> gzip_stream(data@) is Some,
        r matches Ok(v) ==> gzip_stream(data@) == Some(v@),
        r matches Ok(v) ==> exists|n: int|
            0 <= n <= data@.len() && gunzip(v@) == Some(#[trigger] data@.take(n)),
{
    let mut encoder = GzEncoder::new(Vec::new(), Compression::default());
    encoder.write(&data)?;
    encoder.finish()
}

/// Decompresses `data` with `flate2::bufread::GzDecoder`, reading to the end.
///
/// Trusted: it succeeds exactly when `gunzip(data)` is `Some`, and then
/// yields that content.
#[verifier::external_body]
fn gzip_decode(data: Vec<u8>) -> (r: Result<Vec<u8>, std::io::Error>)
    ensures
        r is Ok <==> gunzip(data@) is Some,
        r matches Ok(v) ==> gunzip(data@) == Some(v@),
{
    let mut decoder = GzDecoder::new(&data[..]);
    let mut output = Vec::new();
    decoder.read_to_end(&mut output)?;
    Ok(output)
}


/// The name of the gzip encoding.
pub open spec fn gzip_name() -> Seq<char> {
    seq!['g', 'z', 'i', 'p']
}

/// True when one of the comma-separated items of an `Accept-Encoding` value,
/// trimmed of whitespace, names gzip.
pub open spec fn accepts_gzip(accept: Seq<char>) -> bool {
    exists|i: int|
        0 <= i < split(accept, ',').len() && trim(#[trigger] split(accept, ',')[i]) == gzip_name()
}

/// The content encodings that this server supports.
#[derive(Debug, PartialEq, Eq, Structural)]
pub enum SupportedEncoding {
    Gzip,
}

impl SupportedEncoding {
    /// Reads the name of an encoding: only `gzip` is known.
    pub fn from_str(input: &str) -> (r: Result<SupportedEncoding, ()>)
        ensures
            r is Ok <==> input@ == gzip_name(),
            r matches Ok(e) ==> e == SupportedEncoding::Gzip,
    {
        let cs = chars_of(input);
        if cs.len() == 4 && cs[0] == 'g' && cs[1] == 'z' && cs[2] == 'i' && cs[3] == 'p' {
            assert(cs@ =~= gzip_name());
            Ok(SupportedEncoding::Gzip)
        } else {
            proof {
                if input@ == gzip_name() {
                    assert(cs@[0] == 'g' && cs@[1] == 'z' && cs@[2] == 'i' && cs@[3] == 'p');
                }
            }
            Err(())
        }
    }
}

impl std::str::FromStr for SupportedEncoding {
    type Err = ();

    /// Reads the name of an encoding, as the inherent `from_str` does.
    fn from_str(input: &str) -> (r: Result<SupportedEncoding, ()>)
        ensures
            r is Ok <==> input@ == gzip_name(),
            r matches Ok(e) ==> e == SupportedEncoding::Gzip,
    {
        SupportedEncoding::from_str(input)
    }
}

/// Why an encoding or a decoding failed.
#[derive(Debug)]
pub enum EncodingError {
    /// The encoding is not one that `SupportedEncoding` names.
    UnsupportedEncoding,
    /// The encoder or the decoder reported an error.
    Io(std::io::Error),
}

pub struct Encoding;

impl Encoding {
    /// Encodes `data` with the encoding named `encoding_type`, giving the
    /// encoded bytes and the name of the encoding.
    pub fn encode(encoding_type: &str, data: Vec<u8>) -> (r: Result<
        (Vec<u8>, &'static str),
        EncodingError,
    >)
        ensures
            encoding_type@ != gzip_name() ==> r matches Err(EncodingError::UnsupportedEncoding),
            encoding_type@ == gzip_name() ==> (r is Ok <==> gzip_stream(data@) is Some),
            encoding_type@ == gzip_name() ==> match r {
                Ok((v, name)) => gzip_stream(data@) == Some(v@) && name@ == gzip_name(),
                Err(e) => e is Io,
            },
            r matches Ok((v, _)) ==> exists|n: int|
                0 <= n <= data@.len() && gunzip(v@) == Some(#[trigger] data@.take(n)),
    {
        match SupportedEncoding::from_str(encoding_type) {
            Ok(SupportedEncoding::Gzip) => match gzip_encode(data) {
                Ok(encoded) => {
                    let name = "gzip";
                    proof {
                        reveal_strlit("gzip");
                        assert(name@ =~= gzip_name());
                    }
                    Ok((encoded, name))
                },
                Err(e) => Err(EncodingError::Io(e)),
            },
            Err(_) => Err(EncodingError::UnsupportedEncoding),
        }
    }

    /// Decodes `compressed`, which is encoded with the encoding named
    /// `encoding_type`.
    pub fn decode(encoding_type: &str, compressed: Vec<u8>) -> (r: Result<Vec<u8>, EncodingError>)
        ensures
            encoding_type@ != gzip_name() ==> r matches Err(EncodingError::UnsupportedEncoding),
            encoding_type@ == gzip_name() ==> (r is Ok <==> gunzip(compressed@) is Some),
            encoding_type@ == gzip_name() ==> match r {
                Ok(v) => gunzip(compressed@) == Some(v@),
                Err(e) => e is Io,
            },
    {
        match SupportedEncoding::from_str(encoding_type) {
            Ok(SupportedEncoding::Gzip) => match gzip_decode(compressed) {
                Ok(v) => Ok(v),
                Err(e) => Err(EncodingError::Io(e)),
            },
            Err(_) => Err(EncodingError::UnsupportedEncoding),
        }
    }

    /// The encoding to answer a request with, given its `Accept-Encoding`
    /// value: gzip when one of the comma-separated items is `gzip`.
    pub fn select_encoding(accept: &str) -> (r: Option<&'static str>)
        ensures
            r is Some <==> accepts_gzip(accept@),
            r matches Some(name) ==> name@ == gzip_name(),
    {
        let cs = chars_of(accept);
        let items = split_exec(cs.as_slice(), ',');
        let ghost its = split(accept@, ',');
        assert(items@.map_values(|w: Vec<char>| w@) == its);
        let mut i: usize = 0;
        while i < items.len()
            invariant
                i <= items@.len(),
                items@.map_values(|w: Vec<char>| w@) == its,
                its == split(accept@, ','),
                forall|j: int| 0 <= j < i ==> trim(#[trigger] its[j]) != gzip_name(),
            decreases items@.len() - i,
        {
            let t = trim_exec(items[i].as_slice());
            assert(items@[i as int]@ == its[i as int]);
            if t.len() == 4 && t[0] == 'g' && t[1] == 'z' && t[2] == 'i' && t[3] == 'p' {
                assert(t@ =~= gzip_name());
                let name = "gzip";
                proof {
                    reveal_strlit("gzip");
                    assert(name@ =~= gzip_name());
                }
                return Some(name);
            }
            proof {
                if t@ == gzip_name() {
                    assert(t@[0] == 'g' && t@[1] == 'z' && t@[2] == 'i' && t@[3] == 'p');
                }
            }
            i = i + 1;
        }
        None
    }
}
} // verus!
