//! The supported compression schemes and the codec that applies one of
//! them to a response body.

use vstd::prelude::*;

use crate::parse::CompressError;

verus! {

/// A supported compression scheme, parsed from a lowercase token of the
/// `Accept-Encoding` header. Unrecognized tokens yield no value.
#[derive(PartialEq, Eq, Structural, Clone, Copy, Debug, Hash)]
pub enum Compressor {
    Gzip,
    Deflate,
}

/// The characters of the token naming the gzip scheme.
pub open spec fn gzip_chars() -> Seq<char> {
    seq!['g', 'z', 'i', 'p']
}

/// The characters of the token naming the deflate scheme.
pub open spec fn deflate_chars() -> Seq<char> {
    seq!['d', 'e', 'f', 'l', 'a', 't', 'e']
}

/// Which scheme, if any, a token names.
pub open spec fn spec_compressor_of(s: Seq<char>) -> Option<Compressor> {
    if s == gzip_chars() {
        Some(Compressor::Gzip)
    } else if s == deflate_chars() {
        Some(Compressor::Deflate)
    } else {
        None
    }
}

impl Compressor {
    /// Parses a scheme token: `"gzip"` and `"deflate"` are recognized,
    /// anything else yields `None`.
    pub fn from_str(s: &str) -> (r: Option<Compressor>)
        ensures
            r == spec_compressor_of(s@),
    {
        let n = s.unicode_len();
        if n == 4 {
            if s.get_char(0) == 'g' && s.get_char(1) == 'z' && s.get_char(2) == 'i' && s.get_char(3)
                == 'p' {
                proof {
                    assert(s@ =~= gzip_chars());
                }
                Some(Compressor::Gzip)
            } else {
                None
            }
        } else if n == 7 {
            if s.get_char(0) == 'd' && s.get_char(1) == 'e' && s.get_char(2) == 'f' && s.get_char(3)
                == 'l' && s.get_char(4) == 'a' && s.get_char(5) == 't' && s.get_char(6) == 'e' {
                proof {
                    assert(s@ =~= deflate_chars());
                }
                Some(Compressor::Deflate)
            } else {
                None
            }
        } else {
            None
        }
    }
}


/// What the gzip encoder at the default level yields for the given bytes.
pub uninterp spec fn gzip_of(bytes: Seq<u8>) -> Seq<u8>;

/// What the raw deflate encoder at the default level yields for the given
/// bytes.
pub uninterp spec fn deflate_of(bytes: Seq<u8>) -> Seq<u8>;

/// What a scheme's encoder yields for the given input bytes.
pub open spec fn spec_compressed_of(c: Compressor, bytes: Seq<u8>) -> Seq<u8> {
    match c {
        Compressor::Gzip => gzip_of(bytes),
        Compressor::Deflate => deflate_of(bytes),
    }
}

/// Relies on flate2::write::GzEncoder at the default compression level
/// writing into a `Vec` sink: the call always succeeds, since writes into
/// a `Vec` are infallible, the encoder retries partial writes, and the
/// compressor is only ever run with valid parameters; the result is a
/// function of the input bytes alone (fixed level, and the default header
/// carries no timestamp). The error arm below is defensive and never taken.
#[verifier::external_body]
fn gzip_compress(input: &Vec<u8>) -> (r: Result<Vec<u8>, String>)
    ensures
        r is Ok,
        r matches Ok(out) ==> out@ == gzip_of(input@),
{
    let mut enc = flate2::write::GzEncoder::new(Vec::new(), flate2::Compression::default());
    match std::io::Write::write_all(&mut enc, input.as_slice()) {
        Ok(()) => match enc.finish() {
            Ok(v) => Ok(v),
            Err(e) => Err(e.to_string()),
        },
        Err(e) => Err(e.to_string()),
    }
}

/// Relies on flate2::write::DeflateEncoder at the default compression
/// level writing into a `Vec` sink: the call always succeeds, for the same
/// reasons as the gzip wrapper, and the raw deflate result is a function
/// of the input bytes alone. The error arm below is defensive and never
/// taken.
#[verifier::external_body]
fn deflate_compress(input: &Vec<u8>) -> (r: Result<Vec<u8>, String>)
    ensures
        r is Ok,
        r matches Ok(out) ==> out@ == deflate_of(input@),
{
    let mut enc = flate2::write::DeflateEncoder::new(Vec::new(), flate2::Compression::default());
    match std::io::Write::write_all(&mut enc, input.as_slice()) {
        Ok(()) => match enc.finish() {
            Ok(v) => Ok(v),
            Err(e) => Err(e.to_string()),
        },
        Err(e) => Err(e.to_string()),
    }
}

/// A one-shot readable byte stream: an owned buffer behind a read cursor.
/// Its view is the bytes still to be read; reading to the end exhausts it.
#[derive(Debug)]
pub struct Body {
    bytes: Vec<u8>,
    pos: usize,
}

impl View for Body {
    type V = Seq<u8>;

    closed spec fn view(&self) -> Seq<u8> {
        self.bytes@.skip(self.pos as int)
    }
}

impl Body {
    #[verifier::type_invariant]
    closed spec fn inv(&self) -> bool {
        self.pos <= self.bytes@.len()
    }

    /// A fresh stream over `bytes`, positioned at the start.
    pub fn new(bytes: Vec<u8>) -> (r: Body)
        ensures
            r@ == bytes@,
    {
        let b = Body { bytes, pos: 0 };
        proof {
            assert(b@ =~= b.bytes@);
        }
        b
    }

    /// How many bytes remain to be read.
    pub fn remaining(&self) -> (n: usize)
        ensures
            n == self@.len(),
    {
        proof {
            use_type_invariant(self);
        }
        self.bytes.len() - self.pos
    }

    /// Copies the remaining bytes without consuming the stream.
    pub fn clone_remaining(&self) -> (r: Vec<u8>)
        ensures
            r@ == self@,
    {
        proof {
            use_type_invariant(self);
        }
        let n = self.bytes.len();
        let mut out: Vec<u8> = Vec::new();
        let mut i: usize = self.pos;
        while i < n
            invariant
                self.pos <= i <= n,
                n == self.bytes@.len(),
                out@ == self.bytes@.subrange(self.pos as int, i as int),
            decreases n - i,
        {
            out.push(self.bytes[i]);
            proof {
                assert(out@ =~= self.bytes@.subrange(self.pos as int, i + 1));
            }
            i = i + 1;
        }
        proof {
            assert(out@ =~= self@);
        }
        out
    }

    /// Reads the stream to completion: returns every remaining byte and
    /// leaves the stream exhausted.
    pub fn read_to_end(&mut self) -> (r: Vec<u8>)
        ensures
            r@ == old(self)@,
            final(self)@ == Seq::<u8>::empty(),
    {
        let out = self.clone_remaining();
        *self = Body { bytes: Vec::new(), pos: 0 };
        proof {
            assert(self@ =~= Seq::<u8>::empty());
        }
        out
    }
}

/// An in-flight response, modeled as its body stream; its view is the
/// body's remaining bytes.
#[derive(Debug)]
pub struct Response {
    pub body: Body,
}

impl View for Response {
    type V = Seq<u8>;

    open spec fn view(&self) -> Seq<u8> {
        self.body@
    }
}

impl Compressor {
    /// Compresses `input` with this scheme's encoder at the default
    /// level. With in-memory buffers on both sides the encoders cannot
    /// fail, so this always succeeds; the `Result` keeps the codec's
    /// host-facing failure model.
    pub fn compress_bytes(&self, input: &Vec<u8>) -> (r: Result<Vec<u8>, CompressError>)
        ensures
            r matches Ok(out) && out@ == spec_compressed_of(*self, input@),
    {
        let res = match self {
            Compressor::Gzip => gzip_compress(input),
            Compressor::Deflate => deflate_compress(input),
        };
        match res {
            Ok(v) => Ok(v),
            Err(m) => Err(CompressError::CompressionFailure(m)),
        }
    }

    /// Applies this scheme to the response: reads the body to completion,
    /// compresses it, and replaces the body with a fresh stream over the
    /// compressed bytes. The in-memory encoders cannot fail, so this
    /// always succeeds.
    pub fn compress(&self, res: &mut Response) -> (r: Result<(), CompressError>)
        ensures
            r is Ok,
            final(res)@ == spec_compressed_of(*self, old(res)@),
    {
        let input = res.body.clone_remaining();
        match self.compress_bytes(&input) {
            Ok(out) => {
                res.body = Body::new(out);
                Ok(())
            },
            Err(e) => Err(e),
        }
    }
}

} // verus!
