//! A scanner over source text held as a `String`.

use vstd::prelude::*;
use vstd::utf8::encode_utf8;
use crate::token::{Token, token_views};
use crate::tokenizer::{scan, tokenize};
use crate::tokenizer_error::TokenizerError;

verus! {

pub struct Scanner {
    source: Vec<u8>,
    errors: Vec<TokenizerError>,
}

impl Scanner {
    /// The UTF-8 bytes of the source.
    pub closed spec fn source_bytes(&self) -> Seq<u8> {
        self.source@
    }

    /// The problems found by the last scan.
    pub closed spec fn found(&self) -> Seq<TokenizerError> {
        self.errors@
    }

    pub fn new(source: String) -> (r: Scanner)
        ensures
            r.source_bytes() == encode_utf8(source@),
            r.found() == Seq::<TokenizerError>::empty(),
    {
        let bytes = source.as_str().as_bytes_vec();
        Scanner { source: bytes, errors: Vec::new() }
    }

    /// Scans the whole source: returns its tokens and keeps the problems
    /// found (see `errors`).
    pub fn scan_tokens(&mut self) -> (r: Vec<Token>)
        requires
            old(self).source_bytes().len() < usize::MAX,
        ensures
            token_views(r@) == scan(old(self).source_bytes()).0,
            final(self).found() == scan(old(self).source_bytes()).1,
            final(self).source_bytes() == old(self).source_bytes(),
    {
        let (tokens, errors) = tokenize(self.source.as_slice());
        self.errors = errors;
        tokens
    }

    /// The problems found by the last scan, in order.
    pub fn errors(&self) -> (r: &Vec<TokenizerError>)
        ensures
            r@ == self.found(),
    {
        &self.errors
    }
}

} // verus!
