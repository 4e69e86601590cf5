//! The query of an announce: its parameters, form-urlencoded
//! (`application/x-www-form-urlencoded`), as a URL's query pairs are
//! written.
use vstd::prelude::*;
use vstd::string::{StringExecFns, StringSliceAdditionalSpecFns};
use vstd::utf8::encode_utf8;

verus! {

/// A byte that form-urlencoding keeps as it is: an ASCII letter or digit,
/// `*`, `-`, `.` or `_`.
pub open spec fn form_unchanged(b: u8) -> bool {
    b == 42 || b == 45 || b == 46 || (48 <= b <= 57) || (65 <= b <= 90) || b == 95 || (97 <= b
        <= 122)
}

/// An upper-case hexadecimal digit.
pub open spec fn hex_digit(n: u8) -> char {
    if n < 10 {
        (48 + n) as char
    } else {
        (55 + n) as char
    }
}

/// What form-urlencoding writes for one byte: the byte itself where it is
/// kept, `+` for a space, else `%` and two upper-case hexadecimal digits.
pub open spec fn form_byte(b: u8) -> Seq<char> {
    if form_unchanged(b) {
        seq![b as char]
    } else if b == 32 {
        seq!['+']
    } else {
        seq!['%', hex_digit(b / 16), hex_digit(b % 16)]
    }
}

/// The form-urlencoding of some bytes, byte by byte.
pub open spec fn form_encoded(s: Seq<u8>) -> Seq<char>
    decreases s.len(),
{
    if s.len() == 0 {
        Seq::empty()
    } else {
        form_encoded(s.drop_last()) + form_byte(s.last())
    }
}

/// One pair of a query: the encoded name, `=`, the encoded value.
pub open spec fn pair_text(p: (Seq<u8>, Seq<u8>)) -> Seq<char> {
    form_encoded(p.0) + seq!['='] + form_encoded(p.1)
}

/// The pairs of a query, joined by `&`.
pub open spec fn query_text(params: Seq<(Seq<u8>, Seq<u8>)>) -> Seq<char>
    decreases params.len(),
{
    if params.len() == 0 {
        Seq::empty()
    } else if params.len() == 1 {
        pair_text(params[0])
    } else {
        query_text(params.drop_last()) + seq!['&'] + pair_text(params.last())
    }
}

/// The names (as UTF-8 bytes) and the values of parameters.
pub open spec fn params_view(params: Seq<(&'static str, Vec<u8>)>) -> Seq<(Seq<u8>, Seq<u8>)> {
    Seq::new(params.len(), |i: int| (encode_utf8(params[i].0@), params[i].1@))
}

/// `form_urlencoded::byte_serialize`, collected into a `String`. Trusted: it
/// writes each byte as `form_byte` says (the crate's source keeps the bytes
/// of `form_unchanged`, writes `+` for a space and `percent_encode_byte`, an
/// upper-case `%XX`, for any other byte).
#[verifier::external_body]
fn form_urlencode(bytes: &[u8]) -> (r: String)
    ensures
        r@ == form_encoded(bytes@),
{
    form_urlencoded::byte_serialize(bytes).collect()
}

/// The query text of `params`: each name and value form-urlencoded, joined
/// by `=`, the pairs joined by `&`.
pub fn form_query(params: &Vec<(&'static str, Vec<u8>)>) -> (r: String)
    ensures
        r@ == query_text(params_view(params@)),
{
    let ghost all = params_view(params@);
    let mut out = String::new();
    let mut i: usize = 0;
    proof {
        reveal_strlit("&");
        reveal_strlit("=");
        assert(all.subrange(0, 0) =~= Seq::<(Seq<u8>, Seq<u8>)>::empty());
    }
    while i < params.len()
        invariant
            i <= params@.len(),
            all == params_view(params@),
            out@ == query_text(all.subrange(0, i as int)),
            "&"@ == seq!['&'],
            "="@ == seq!['='],
        decreases params@.len() - i,
    {
        let ghost prev = all.subrange(0, i as int);
        if i > 0 {
            out.append("&");
        }
        let name = form_urlencode(params[i].0.as_bytes());
        out.append(name.as_str());
        out.append("=");
        let value = form_urlencode(params[i].1.as_slice());
        out.append(value.as_str());
        proof {
            let next = all.subrange(0, i + 1);
            assert(next.drop_last() =~= prev);
            assert(next.last() == all[i as int]);
            if i == 0 {
                assert(out@ =~= pair_text(all[0]));
            } else {
                assert(out@ =~= query_text(prev) + seq!['&'] + pair_text(all[i as int]));
            }
        }
        i = i + 1;
    }
    assert(all.subrange(0, i as int) =~= all);
    out
}

} // verus!
