//! Bencode: the serialization format of BitTorrent metainfo files and
//! tracker responses.
pub mod types;
pub mod encode;
pub mod decode;
pub mod roundtrip;
pub mod parse;

use vstd::prelude::*;
use vstd::string::StringSliceAdditionalSpecFns;
use vstd::utf8::{decode_utf8, valid_utf8};
use crate::bencode::encode::{encoding, encode_bytes};
use crate::bencode::types::{Bencoded, INT_START, END, COLON};
use crate::decimal::{decimal, decimal_len, signed_decimal, signed_decimal_len, parse_i64, parse_i64_spec, parse_usize, parse_usize_spec, lemma_decimal};
use crate::scan::{first_index, position};
use crate::utf8::string_from_utf8;

verus! {

/// A type that can be read from its bencoding in a text.
pub trait Bencode: Sized + View {
    /// The length of the bencoding of a value.
    spec fn bencoded_len(v: Self::V) -> nat;

    /// What `try_decode` reads from a text with these UTF-8 bytes.
    spec fn decoded(from: Seq<u8>) -> Option<Self::V>;

    /// The texts on which `try_decode` would index out of bounds.
    spec fn decode_overruns(from: Seq<u8>) -> bool;

    /// The length of the bencoding of `self`.
    fn bsize(&self) -> (r: usize)
        requires
            Self::bencoded_len(self@) <= usize::MAX,
        ensures
            r == Self::bencoded_len(self@),
    ;

    /// Reads a value from its bencoding in `from`.
    fn try_decode(from: &str) -> (r: Option<Self>)
        requires
            !Self::decode_overruns(from.spec_bytes()),
        ensures
            match r {
                Some(x) => Self::decoded(from.spec_bytes()) == Some(x@),
                None => Self::decoded(from.spec_bytes()) is None,
            },
    ;
}

impl Bencode for i64 {
    /// `i`, the decimal text, `e`.
    open spec fn bencoded_len(v: i64) -> nat {
        encoding(Bencoded::Num(v as int)).len()
    }

    /// The text between the first `i` and the first `e`, read as an `i64`.
    open spec fn decoded(from: Seq<u8>) -> Option<i64> {
        match (first_index(from, INT_START), first_index(from, END)) {
            (Some(i), Some(e)) => parse_i64_spec(from.subrange(i + 1, e)),
            _ => None,
        }
    }

    /// The first `e` comes before the first `i`.
    open spec fn decode_overruns(from: Seq<u8>) -> bool {
        match (first_index(from, INT_START), first_index(from, END)) {
            (Some(i), Some(e)) => e < i + 1,
            _ => false,
        }
    }

    fn bsize(&self) -> (r: usize) {
        signed_decimal_len(*self) + 2
    }

    fn try_decode(from: &str) -> (r: Option<i64>) {
        let bytes = from.as_bytes();
        let ipos = match position(bytes, INT_START) {
            Some(i) => i,
            None => return None,
        };
        let epos = match position(bytes, END) {
            Some(e) => e,
            None => return None,
        };
        parse_i64(&bytes[ipos + 1..epos])
    }
}

impl Bencode for String {
    /// The length in decimal, `:`, the UTF-8 bytes.
    open spec fn bencoded_len(v: Seq<char>) -> nat {
        encoding(Bencoded::Str(v)).len()
    }

    /// The text of the `N` bytes after the first `:`, where `N` is the text
    /// before it read as a `usize`, and that many bytes follow.
    open spec fn decoded(from: Seq<u8>) -> Option<Seq<char>> {
        match first_index(from, COLON) {
            None => None,
            Some(c) => match parse_usize_spec(from.subrange(0, c)) {
                None => None,
                Some(size) => if size > from.len() - c - 1 {
                    None
                } else {
                    Some(decode_utf8(from.subrange(c + 1, c + 1 + size)))
                },
            },
        }
    }

    /// The `N` bytes do not end on a character boundary: they are no UTF-8
    /// text of their own.
    open spec fn decode_overruns(from: Seq<u8>) -> bool {
        match first_index(from, COLON) {
            None => false,
            Some(c) => match parse_usize_spec(from.subrange(0, c)) {
                None => false,
                Some(size) => size <= from.len() - c - 1 && !valid_utf8(
                    from.subrange(c + 1, c + 1 + size),
                ),
            },
        }
    }

    fn bsize(&self) -> (r: usize) {
        let len = self.as_str().len();
        proof {
            lemma_decimal(len as nat);
        }
        len + decimal_len(len as u64) + 1
    }

    fn try_decode(from: &str) -> (r: Option<String>) {
        let bytes = from.as_bytes();
        let cpos = match position(bytes, COLON) {
            Some(c) => c,
            None => return None,
        };
        proof {
            crate::scan::lemma_first_index(bytes@, COLON);
        }
        let size = match parse_usize(&bytes[0..cpos]) {
            Some(s) => s,
            None => return None,
        };
        if size > bytes.len() - cpos - 1 {
            return None;
        }
        let data = vstd::slice::slice_to_vec(&bytes[cpos + 1..cpos + 1 + size]);
        match string_from_utf8(data) {
            Ok(s) => Some(s),
            Err(_) => None,
        }
    }
}

/// Reads a value of the type `T` from its bencoding in `contents`.
pub fn deserialize<T: Bencode>(contents: &str) -> (r: Option<T>)
    requires
        !T::decode_overruns(contents.spec_bytes()),
    ensures
        match r {
            Some(x) => T::decoded(contents.spec_bytes()) == Some(x@),
            None => T::decoded(contents.spec_bytes()) is None,
        },
{
    T::try_decode(contents)
}

} // verus!
