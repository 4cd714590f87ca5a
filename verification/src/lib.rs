//! Negotiates HTTP response compression: parses an `Accept-Encoding`
//! preference list, selects the best supported scheme, and rewrites a
//! response body through that scheme's encoder.
//!
//! The host framework hands over the header's directive tokens, already
//! split on commas, and the in-flight response; it gets back the original
//! response (no header, nothing to do), a response with its body rewritten,
//! or an error.

pub mod compressors;
pub mod parse;

use vstd::prelude::*;

use crate::compressors::Response;
use crate::compressors::spec_compressed_of;
use crate::parse::CompressError;
use crate::parse::get_compressor;
use crate::parse::spec_negotiate;

verus! {

/// The compression middleware: negotiates a scheme from the request's
/// `Accept-Encoding` tokens and rewrites the response body through it.
#[derive(Debug, Clone)]
pub struct Compress;

impl Compress {
    /// Runs after downstream handlers. With no `Accept-Encoding` header the
    /// response passes through untouched and no codec is invoked; so does a
    /// downstream error. Otherwise a failed negotiation propagates its
    /// error, and a winning scheme rewrites the body, which with in-memory
    /// encoders always succeeds.
    pub fn after(
        &self,
        accept_encoding: Option<&Vec<&str>>,
        res: Result<Response, CompressError>,
    ) -> (r: Result<Response, CompressError>)
        ensures
            accept_encoding is None ==> r == res,
            accept_encoding matches Some(toks) ==> {
                &&& (res matches Err(e) ==> r == Err::<Response, CompressError>(e))
                &&& (res matches Ok(resp) ==> {
                    let outcome = spec_negotiate(toks.deep_view());
                    &&& (outcome matches Err(e) ==> r == Err::<Response, CompressError>(e))
                    &&& (outcome matches Ok(c) ==> r matches Ok(rewritten) && rewritten@
                        == spec_compressed_of(c, resp@))
                })
            },
    {
        match accept_encoding {
            Some(tokens) => {
                match res {
                    Ok(mut resp) => {
                        match get_compressor(tokens) {
                            Ok(compressor) => {
                                match compressor.compress(&mut resp) {
                                    Ok(()) => Ok(resp),
                                    Err(e) => Err(e),
                                }
                            },
                            Err(e) => Err(e),
                        }
                    },
                    Err(e) => Err(e),
                }
            },
            None => res,
        }
    }
}

} // verus!
