//! What decoding makes of an encoding: the value comes back.
use vstd::prelude::*;
use vstd::utf8::{encode_utf8, decode_utf8, valid_utf8, encode_utf8_valid_utf8, encode_utf8_decode_utf8};
use crate::bencode::decode::{decode_any_spec, decode_items_spec, decode_entries_spec, decode_num_spec, decode_bin_spec, decode_str_spec, cons_outcome};
use crate::bencode::encode::{encoding, encode_items, encode_entries, encode_bytes, lemma_encoding_len};
use crate::bencode::Bencode;
use crate::bencode::parse::{parse_num_spec, parse_bin_spec, parse_str_spec, parse_any_spec, parse_items_spec, parse_entries_spec, key_index, lemma_key_index_bounds, no_span, ParseOutcome, Span, Exact};
use crate::bencode::types::{Bencoded, INT_START, LIST_START, DICT_START, END, COLON};
use crate::decimal::{decimal, signed_decimal, is_digit, all_digits, lemma_decimal, parse_isize_spec, lemma_integer_text_signed_decimal, lemma_integer_text_decimal};
use crate::outcome::Outcome;
use crate::scan::{is_first, first_index, lemma_first_index_is};

verus! {

/// Every integer fits in an `isize` and every byte string (and key) is at
/// most `isize::MAX` bytes long: the values that the decoder can read back.
pub open spec fn fits(v: Bencoded) -> bool
    decreases v,
{
    match v {
        Bencoded::Num(n) => isize::MIN <= n <= isize::MAX,
        Bencoded::Bin(b) => b.len() <= isize::MAX,
        Bencoded::Str(s) => encode_utf8(s).len() <= isize::MAX,
        Bencoded::List(l) => forall|i: int| 0 <= i < l.len() ==> fits(#[trigger] l[i]),
        Bencoded::Pair(p) => forall|i: int| 0 <= i < p.len() ==> fits_entry(#[trigger] p[i]),
    }
}

pub open spec fn fits_entry(e: (Seq<char>, Bencoded)) -> bool
    decreases e,
{
    encode_utf8(e.0).len() <= isize::MAX && fits(e.1)
}

/// The value that the decoder gives back for the bencoding of `v`: text
/// outside dictionary keys comes back as its UTF-8 bytes.
pub open spec fn as_decoded(v: Bencoded) -> Bencoded
    decreases v,
{
    match v {
        Bencoded::Str(s) => Bencoded::Bin(encode_utf8(s)),
        Bencoded::List(l) => Bencoded::List(
            Seq::new(
                l.len(),
                |i: int|
                    if 0 <= i < l.len() {
                        as_decoded(l[i])
                    } else {
                        Bencoded::Num(0)
                    },
            ),
        ),
        Bencoded::Pair(p) => Bencoded::Pair(
            Seq::new(
                p.len(),
                |i: int|
                    if 0 <= i < p.len() {
                        entry_as_decoded(p[i])
                    } else {
                        (Seq::empty(), Bencoded::Num(0))
                    },
            ),
        ),
        _ => v,
    }
}

pub open spec fn entry_as_decoded(e: (Seq<char>, Bencoded)) -> (Seq<char>, Bencoded)
    decreases e,
{
    (e.0, as_decoded(e.1))
}

proof fn lemma_encode_items_first(l: Seq<Bencoded>)
    requires
        l.len() > 0,
    ensures
        encode_items(l) == encoding(l[0]) + encode_items(l.drop_first()),
    decreases l.len(),
{
    if l.len() == 1 {
        assert(l.drop_last() =~= Seq::<Bencoded>::empty());
        assert(l.drop_first() =~= Seq::<Bencoded>::empty());
        assert(encode_items(l) =~= encoding(l[0]) + encode_items(l.drop_first()));
    } else {
        lemma_encode_items_first(l.drop_last());
        assert(l.drop_last().drop_first() =~= l.drop_first().drop_last());
        assert(l.drop_first().last() == l.last());
        assert(l.drop_last()[0] == l[0]);
        assert(encode_items(l) =~= encoding(l[0]) + encode_items(l.drop_first()));
    }
}

proof fn lemma_encode_entries_first(p: Seq<(Seq<char>, Bencoded)>)
    requires
        p.len() > 0,
    ensures
        encode_entries(p) == encode_bytes(encode_utf8(p[0].0)) + encoding(p[0].1) + encode_entries(
            p.drop_first(),
        ),
    decreases p.len(),
{
    if p.len() == 1 {
        assert(p.drop_last() =~= Seq::<(Seq<char>, Bencoded)>::empty());
        assert(p.drop_first() =~= Seq::<(Seq<char>, Bencoded)>::empty());
        assert(encode_entries(p) =~= encode_bytes(encode_utf8(p[0].0)) + encoding(p[0].1)
            + encode_entries(p.drop_first()));
    } else {
        lemma_encode_entries_first(p.drop_last());
        assert(p.drop_last().drop_first() =~= p.drop_first().drop_last());
        assert(p.drop_first().last() == p.last());
        assert(p.drop_last()[0] == p[0]);
        assert(encode_entries(p) =~= encode_bytes(encode_utf8(p[0].0)) + encoding(p[0].1)
            + encode_entries(p.drop_first()));
    }
}

/// A bencoding starts with `i`, `l`, `d` or a digit, never with `e`.
proof fn lemma_encoding_first(v: Bencoded)
    ensures
        encoding(v).len() > 0,
        encoding(v)[0] != END,
{
    lemma_encoding_len(v);
    match v {
        Bencoded::Bin(b) => {
            lemma_decimal(b.len());
            assert(is_digit(decimal(b.len())[0]));
        },
        Bencoded::Str(s) => {
            lemma_decimal(encode_utf8(s).len());
            assert(is_digit(decimal(encode_utf8(s).len())[0]));
        },
        _ => {},
    }
}

/// The text between the first two markers: `a` holds no `x`.
proof fn lemma_first_after(a: Seq<u8>, x: u8, r: Seq<u8>)
    requires
        forall|j: int| 0 <= j < a.len() ==> a[j] != x,
    ensures
        first_index(a + seq![x] + r, x) == Some(a.len() as int),
{
    let s = a + seq![x] + r;
    assert(is_first(s, x, a.len() as int)) by {
        assert forall|j: int| 0 <= j < a.len() implies s[j] != x by {
            assert(s[j] == a[j]);
        }
    }
    lemma_first_index_is(s, x, a.len() as int);
}

/// The bytes of a byte string are read back from its bencoding.
proof fn lemma_decode_bytes(b: Seq<u8>, rest: Seq<u8>)
    requires
        b.len() <= isize::MAX,
    ensures
        decode_bin_spec(encode_bytes(b) + rest) == Some(b),
{
    let d = decimal(b.len());
    let s = encode_bytes(b) + rest;
    lemma_decimal(b.len());
    assert(s =~= d + seq![COLON] + (b + rest));
    lemma_first_after(d, COLON, b + rest);
    assert(s.subrange(0, d.len() as int) =~= d);
    lemma_integer_text_decimal(b.len());
    assert(parse_isize_spec(d) == Some(b.len() as isize));
    assert(s.subrange(d.len() as int + 1, d.len() as int + 1 + b.len() as int) =~= b);
}

/// The text of a key is read back from its bencoding.
proof fn lemma_decode_key(k: Seq<char>, rest: Seq<u8>)
    requires
        encode_utf8(k).len() <= isize::MAX,
    ensures
        decode_str_spec(encode_bytes(encode_utf8(k)) + rest) == Some(k),
{
    lemma_decode_bytes(encode_utf8(k), rest);
    encode_utf8_valid_utf8(k);
    encode_utf8_decode_utf8(k);
}

/// Where the markers of an integer's bencoding stand: `i` first, then the
/// decimal text, then the first `e`.
proof fn lemma_num_markers(n: int, rest: Seq<u8>)
    ensures
        ({
            let s = encoding(Bencoded::Num(n)) + rest;
            let d = signed_decimal(n);
            &&& first_index(s, INT_START) == Some(0int)
            &&& first_index(s, END) == Some(d.len() as int + 1)
            &&& s.subrange(1, d.len() as int + 1) == d
            &&& s[0] == INT_START
        }),
{
    let s = encoding(Bencoded::Num(n)) + rest;
    let d = signed_decimal(n);
    assert(s =~= seq![INT_START] + d + seq![END] + rest);
    assert(s[0] == INT_START);
    assert(forall|j: int| 0 <= j < (seq![INT_START] + d).len() ==> (seq![INT_START] + d)[j] != END) by {
        if n < 0 {
            lemma_decimal((-n) as nat);
        } else {
            lemma_decimal(n as nat);
        }
        assert forall|j: int| 0 <= j < (seq![INT_START] + d).len() implies (seq![INT_START] + d)[j] != END by {
            if j > 0 {
                if n < 0 {
                    if j > 1 {
                        assert(is_digit(decimal((-n) as nat)[j - 2]));
                    }
                } else {
                    assert(is_digit(decimal(n as nat)[j - 1]));
                }
            }
        }
    }
    lemma_first_after(seq![INT_START] + d, END, rest);
    assert(s.subrange(1, d.len() as int + 1) =~= d);
    assert(is_first(s, INT_START, 0));
    lemma_first_index_is(s, INT_START, 0);
}

proof fn lemma_decode_num(n: int, rest: Seq<u8>)
    requires
        isize::MIN <= n <= isize::MAX,
    ensures
        decode_any_spec(encoding(Bencoded::Num(n)) + rest) == Outcome::Success(Bencoded::Num(n)),
{
    lemma_num_markers(n, rest);
    lemma_integer_text_signed_decimal(n);
}

/// `i64::try_decode` reads an integer back from its bencoding, whatever
/// follows it.
pub proof fn lemma_i64_decode_bencoding(v: i64, tail: Seq<u8>)
    ensures
        !<i64 as Bencode>::decode_overruns(encoding(Bencoded::Num(v as int)) + tail),
        <i64 as Bencode>::decoded(encoding(Bencoded::Num(v as int)) + tail) == Some(v),
{
    lemma_num_markers(v as int, tail);
    lemma_integer_text_signed_decimal(v as int);
}

/// `String::try_decode` reads a text back from its bencoding, whatever
/// follows it.
pub proof fn lemma_string_decode_bencoding(t: Seq<char>, tail: Seq<u8>)
    requires
        encode_utf8(t).len() <= usize::MAX,
    ensures
        !<String as Bencode>::decode_overruns(encoding(Bencoded::Str(t)) + tail),
        <String as Bencode>::decoded(encoding(Bencoded::Str(t)) + tail) == Some(t),
{
    let b = encode_utf8(t);
    let d = decimal(b.len());
    let s = encoding(Bencoded::Str(t)) + tail;
    lemma_decimal(b.len());
    assert(s =~= d + seq![COLON] + (b + tail));
    lemma_first_after(d, COLON, b + tail);
    assert(s.subrange(0, d.len() as int) =~= d);
    lemma_integer_text_decimal(b.len());
    assert(s.subrange(d.len() as int + 1, d.len() as int + 1 + b.len() as int) =~= b);
    encode_utf8_valid_utf8(t);
    encode_utf8_decode_utf8(t);
}

/// `try_parse_num` reads an integer back from its bencoding, whatever
/// follows it: the value spans exactly the bencoding.
pub proof fn lemma_parse_num_bencoding(v: i64, tail: Seq<u8>)
    ensures
        parse_num_spec(encoding(Bencoded::Num(v as int)) + tail) == ParseOutcome::Parsed(
            Span { from: encoding(Bencoded::Num(v as int)), data: Exact::Num(v as int), hash: None },
        ),
{
    let w = encoding(Bencoded::Num(v as int));
    let d = signed_decimal(v as int);
    lemma_num_markers(v as int, tail);
    lemma_integer_text_signed_decimal(v as int);
    assert((w + tail).subrange(0, d.len() as int + 2) =~= w);
}

/// The span parser reads a byte string back from its bencoding, whatever
/// follows it: its bytes, spanning exactly the bencoding; as text, the text
/// that the bytes encode where they are UTF-8, and nothing where they are
/// not.
pub proof fn lemma_parse_bytes_bencoding(b: Seq<u8>, tail: Seq<u8>)
    requires
        b.len() <= usize::MAX,
    ensures
        parse_bin_spec(encode_bytes(b) + tail) == Some(
            Span { from: encode_bytes(b), data: Exact::Bin(b), hash: None },
        ),
        parse_any_spec(encode_bytes(b) + tail) == ParseOutcome::Parsed(
            Span { from: encode_bytes(b), data: Exact::Bin(b), hash: None },
        ),
        valid_utf8(b) ==> parse_str_spec(encode_bytes(b) + tail) == Some(
            Span { from: encode_bytes(b), data: Exact::Str(decode_utf8(b)), hash: None },
        ),
        !valid_utf8(b) ==> parse_str_spec(encode_bytes(b) + tail) is None,
{
    let d = decimal(b.len());
    let s = encode_bytes(b) + tail;
    lemma_decimal(b.len());
    assert(s =~= d + seq![COLON] + (b + tail));
    lemma_first_after(d, COLON, b + tail);
    assert(s.subrange(0, d.len() as int) =~= d);
    lemma_integer_text_decimal(b.len());
    assert(s.subrange(d.len() as int + 1, d.len() as int + 1 + b.len() as int) =~= b);
    assert(s.subrange(0, d.len() as int + 1 + b.len() as int) =~= encode_bytes(b));
    assert(is_digit(d[0]));
    assert(s[0] == d[0]);
}

/// The span parser reads a text back from the bencoding of its UTF-8
/// bytes, whatever follows it.
pub proof fn lemma_parse_str_bencoding(t: Seq<char>, tail: Seq<u8>)
    requires
        encode_utf8(t).len() <= usize::MAX,
    ensures
        parse_str_spec(encoding(Bencoded::Str(t)) + tail) == Some(
            Span { from: encoding(Bencoded::Str(t)), data: Exact::Str(t), hash: None },
        ),
{
    lemma_parse_bytes_bencoding(encode_utf8(t), tail);
    encode_utf8_valid_utf8(t);
    encode_utf8_decode_utf8(t);
}

/// Decoding the bencoding of `v`, whatever follows it, gives back `v` as
/// `as_decoded` says.
pub proof fn lemma_decode_encoding(v: Bencoded, rest: Seq<u8>)
    requires
        fits(v),
    ensures
        decode_any_spec(encoding(v) + rest) == Outcome::Success(as_decoded(v)),
    decreases v,
{
    let s = encoding(v) + rest;
    lemma_encoding_first(v);
    match v {
        Bencoded::Num(n) => {
            lemma_decode_num(n, rest);
        },
        Bencoded::Bin(b) => {
            lemma_decimal(b.len());
            assert(is_digit(decimal(b.len())[0]));
            lemma_decode_bytes(b, rest);
        },
        Bencoded::Str(t) => {
            lemma_decimal(encode_utf8(t).len());
            assert(is_digit(decimal(encode_utf8(t).len())[0]));
            lemma_decode_bytes(encode_utf8(t), rest);
        },
        Bencoded::List(l) => {
            assert(s =~= seq![LIST_START] + (encode_items(l) + seq![END] + rest));
            assert(s.subrange(1, s.len() as int) =~= encode_items(l) + seq![END] + rest);
            lemma_decode_items(l, rest);
            assert(Bencoded::List(as_decoded_items(l)) == as_decoded(v)) by {
                assert(as_decoded_items(l) =~= as_decoded(v)->List_0);
            }
        },
        Bencoded::Pair(p) => {
            assert(s =~= seq![DICT_START] + (encode_entries(p) + seq![END] + rest));
            assert(s.subrange(1, s.len() as int) =~= encode_entries(p) + seq![END] + rest);
            lemma_decode_entries(p, rest);
            assert(Bencoded::Pair(as_decoded_entries(p)) == as_decoded(v)) by {
                let w = as_decoded(v)->Pair_0;
                assert forall|i: int| 0 <= i < p.len() implies w[i] == (p[i].0, as_decoded(p[i].1)) by {
                    assert(w[i] == entry_as_decoded(p[i]));
                }
                assert(as_decoded_entries(p) =~= w);
            }
        },
    }
}

/// Decoding a bencoding and encoding the value that comes back gives back the
/// same bytes.
pub proof fn lemma_reencode(v: Bencoded)
    requires
        fits(v),
    ensures
        decode_any_spec(encoding(v)) matches Outcome::Success(w) && encoding(w) == encoding(v),
{
    lemma_decode_encoding(v, Seq::empty());
    assert(encoding(v) + Seq::<u8>::empty() =~= encoding(v));
    lemma_encoding_as_decoded(v);
}

pub open spec fn as_decoded_items(l: Seq<Bencoded>) -> Seq<Bencoded> {
    Seq::new(l.len(), |i: int| as_decoded(l[i]))
}

pub open spec fn as_decoded_entries(p: Seq<(Seq<char>, Bencoded)>) -> Seq<(Seq<char>, Bencoded)> {
    Seq::new(p.len(), |i: int| (p[i].0, as_decoded(p[i].1)))
}

/// Text read back as bytes has the same bencoding.
pub proof fn lemma_encoding_as_decoded(v: Bencoded)
    ensures
        encoding(as_decoded(v)) == encoding(v),
    decreases v,
{
    match v {
        Bencoded::List(l) => {
            let w = as_decoded(v)->List_0;
            assert(w =~= as_decoded_items(l));
            lemma_encode_items_as_decoded(l);
        },
        Bencoded::Pair(p) => {
            let w = as_decoded(v)->Pair_0;
            assert forall|i: int| 0 <= i < p.len() implies w[i] == (p[i].0, as_decoded(p[i].1)) by {
                assert(w[i] == entry_as_decoded(p[i]));
            }
            assert(w =~= as_decoded_entries(p));
            lemma_encode_entries_as_decoded(p);
        },
        _ => {},
    }
}

proof fn lemma_encode_items_as_decoded(l: Seq<Bencoded>)
    ensures
        encode_items(as_decoded_items(l)) == encode_items(l),
    decreases l,
{
    if l.len() > 0 {
        let w = as_decoded_items(l);
        assert(w.drop_last() =~= as_decoded_items(l.drop_last()));
        lemma_encode_items_as_decoded(l.drop_last());
        lemma_encoding_as_decoded(l.last());
    }
}

proof fn lemma_encode_entries_as_decoded(p: Seq<(Seq<char>, Bencoded)>)
    ensures
        encode_entries(as_decoded_entries(p)) == encode_entries(p),
    decreases p,
{
    if p.len() > 0 {
        let w = as_decoded_entries(p);
        assert(w.drop_last() =~= as_decoded_entries(p.drop_last()));
        lemma_encode_entries_as_decoded(p.drop_last());
        lemma_encoding_as_decoded(p.last().1);
    }
}

proof fn lemma_decode_items(l: Seq<Bencoded>, rest: Seq<u8>)
    requires
        forall|i: int| 0 <= i < l.len() ==> fits(#[trigger] l[i]),
    ensures
        decode_items_spec(encode_items(l) + seq![END] + rest) == Outcome::Success(
            as_decoded_items(l),
        ),
    decreases l,
{
    let t = encode_items(l) + seq![END] + rest;
    if l.len() == 0 {
        assert(t[0] == END);
        assert(as_decoded_items(l) =~= Seq::<Bencoded>::empty());
    } else {
        lemma_encode_items_first(l);
        let tail = encode_items(l.drop_first()) + seq![END] + rest;
        assert(t =~= encoding(l[0]) + tail);
        lemma_encoding_first(l[0]);
        assert(t[0] == encoding(l[0])[0]);
        assert(fits(l[0]));
        lemma_decode_encoding(l[0], tail);
        lemma_encoding_as_decoded(l[0]);
        let n = encoding(as_decoded(l[0])).len();
        assert(t.subrange(n as int, t.len() as int) =~= tail);
        assert forall|i: int| 0 <= i < l.drop_first().len() implies fits(#[trigger] l.drop_first()[i]) by {
            assert(l.drop_first()[i] == l[i + 1]);
        }
        lemma_decode_items(l.drop_first(), rest);
        assert(as_decoded_items(l) =~= seq![as_decoded(l[0])] + as_decoded_items(l.drop_first()));
    }
}

#[verifier::spinoff_prover]
#[verifier::rlimit(60)]
proof fn lemma_decode_entries_step(p: Seq<(Seq<char>, Bencoded)>, rest: Seq<u8>)
    requires
        p.len() > 0,
        fits_entry(p[0]),
        decode_any_spec(encoding(p[0].1) + (encode_entries(p.drop_first()) + seq![END] + rest))
            == Outcome::Success(as_decoded(p[0].1)),
    ensures
        decode_entries_spec(encode_entries(p) + seq![END] + rest) == cons_outcome(
            (p[0].0, as_decoded(p[0].1)),
            decode_entries_spec(encode_entries(p.drop_first()) + seq![END] + rest),
        ),
{
    let t = encode_entries(p) + seq![END] + rest;
        lemma_encode_entries_first(p);
        let k = p[0].0;
        let v = p[0].1;
        assert(fits_entry(p[0]));
        let tail = encode_entries(p.drop_first()) + seq![END] + rest;
        let kb = encode_bytes(encode_utf8(k));
        assert(t =~= kb + (encoding(v) + tail));
        lemma_decimal(encode_utf8(k).len());
        assert(is_digit(decimal(encode_utf8(k).len())[0]));
        assert(t[0] == kb[0]);
        lemma_decode_key(k, encoding(v) + tail);
        let n1 = encoding(Bencoded::Str(k)).len();
        assert(n1 == kb.len());
        let t2 = t.subrange(n1 as int, t.len() as int);
        assert(t2 =~= encoding(v) + tail);
        lemma_encoding_as_decoded(v);
        let n2 = encoding(as_decoded(v)).len();
        assert(t2.subrange(n2 as int, t2.len() as int) =~= tail);
}

proof fn lemma_decode_entries(p: Seq<(Seq<char>, Bencoded)>, rest: Seq<u8>)
    requires
        forall|i: int| 0 <= i < p.len() ==> fits_entry(#[trigger] p[i]),
    ensures
        decode_entries_spec(encode_entries(p) + seq![END] + rest) == Outcome::Success(
            as_decoded_entries(p),
        ),
    decreases p,
{
    let t = encode_entries(p) + seq![END] + rest;
    if p.len() == 0 {
        assert(t[0] == END);
        assert(as_decoded_entries(p) =~= Seq::<(Seq<char>, Bencoded)>::empty());
    } else {
        let tail = encode_entries(p.drop_first()) + seq![END] + rest;
        assert(fits_entry(p[0]));
        lemma_decode_encoding(p[0].1, tail);
        lemma_decode_entries_step(p, rest);
        assert forall|i: int| 0 <= i < p.drop_first().len() implies fits_entry(#[trigger] p.drop_first()[i]) by {
            assert(p.drop_first()[i] == p[i + 1]);
        }
        lemma_decode_entries(p.drop_first(), rest);
        assert(as_decoded_entries(p) =~= seq![(p[0].0, as_decoded(p[0].1))] + as_decoded_entries(p.drop_first()));
    }
}

/// The values that the span parser reads back from their bencoding: every
/// integer fits in an `i64`, every byte string (and text, and key) is at
/// most `usize::MAX` bytes long, and no dictionary has a key twice.
pub open spec fn parse_fits(v: Bencoded) -> bool
    decreases v,
{
    match v {
        Bencoded::Num(n) => i64::MIN <= n <= i64::MAX,
        Bencoded::Bin(b) => b.len() <= usize::MAX,
        Bencoded::Str(s) => encode_utf8(s).len() <= usize::MAX,
        Bencoded::List(l) => forall|i: int| 0 <= i < l.len() ==> parse_fits(#[trigger] l[i]),
        Bencoded::Pair(p) => {
            &&& forall|i: int| 0 <= i < p.len() ==> parse_fits_entry(#[trigger] p[i])
            &&& forall|i: int, j: int| 0 <= i < j < p.len() ==> p[i].0 != p[j].0
        },
    }
}

pub open spec fn parse_fits_entry(e: (Seq<char>, Bencoded)) -> bool
    decreases e,
{
    encode_utf8(e.0).len() <= usize::MAX && parse_fits(e.1)
}

/// What the span parser gives for the bencoding of `v`: each value spans
/// its own bencoding; text comes back as its UTF-8 bytes, except keys.
pub open spec fn spanned(v: Bencoded) -> Span
    decreases v,
{
    Span {
        from: encoding(v),
        data: match v {
            Bencoded::Num(n) => Exact::Num(n),
            Bencoded::Bin(b) => Exact::Bin(b),
            Bencoded::Str(t) => Exact::Bin(encode_utf8(t)),
            Bencoded::List(l) => Exact::List(
                Seq::new(
                    l.len(),
                    |i: int|
                        if 0 <= i < l.len() {
                            spanned(l[i])
                        } else {
                            no_span()
                        },
                ),
            ),
            Bencoded::Pair(p) => Exact::Pair(
                Seq::new(
                    p.len(),
                    |i: int|
                        if 0 <= i < p.len() {
                            entry_spanned(p[i])
                        } else {
                            (Seq::empty(), no_span())
                        },
                ),
            ),
        },
        hash: None,
    }
}

pub open spec fn entry_spanned(e: (Seq<char>, Bencoded)) -> (Seq<char>, Span)
    decreases e,
{
    (e.0, spanned(e.1))
}

pub open spec fn spanned_items(l: Seq<Bencoded>) -> Seq<Span> {
    Seq::new(l.len(), |i: int| spanned(l[i]))
}

pub open spec fn spanned_entries(p: Seq<(Seq<char>, Bencoded)>) -> Seq<(Seq<char>, Span)> {
    Seq::new(p.len(), |i: int| (p[i].0, spanned(p[i].1)))
}

/// The span parser reads every value that it can hold back from its
/// bencoding, whatever follows it: the same integers, bytes, items and
/// entries in the same order, each value spanning exactly its own bencoding.
pub proof fn lemma_parse_encoding(v: Bencoded, tail: Seq<u8>)
    requires
        parse_fits(v),
    ensures
        parse_any_spec(encoding(v) + tail) == ParseOutcome::Parsed(spanned(v)),
    decreases v,
{
    let s = encoding(v) + tail;
    lemma_encoding_first(v);
    match v {
        Bencoded::Num(n) => {
            lemma_parse_num_bencoding(n as i64, tail);
        },
        Bencoded::Bin(b) => {
            lemma_parse_bytes_bencoding(b, tail);
        },
        Bencoded::Str(t) => {
            lemma_parse_bytes_bencoding(encode_utf8(t), tail);
        },
        Bencoded::List(l) => {
            assert(s =~= seq![LIST_START] + (encode_items(l) + seq![END] + tail));
            assert(s.subrange(1, s.len() as int) =~= encode_items(l) + seq![END] + tail);
            lemma_parse_items(l, tail, Seq::empty(), 0);
            assert(Seq::<Span>::empty() + spanned_items(l) =~= spanned(v).data->List_0);
            assert(s.subrange(0, encode_items(l).len() + 2int) =~= encoding(v));
        },
        Bencoded::Pair(p) => {
            assert(s =~= seq![DICT_START] + (encode_entries(p) + seq![END] + tail));
            assert(s.subrange(1, s.len() as int) =~= encode_entries(p) + seq![END] + tail);
            lemma_parse_entries(p, tail, Seq::empty(), 0);
            let w = spanned(v).data->Pair_0;
            assert forall|i: int| 0 <= i < p.len() implies w[i] == (p[i].0, spanned(p[i].1)) by {
                assert(w[i] == entry_spanned(p[i]));
            }
            assert(Seq::<(Seq<char>, Span)>::empty() + spanned_entries(p) =~= w);
            assert(s.subrange(0, encode_entries(p).len() + 2int) =~= encoding(v));
        },
    }
}

proof fn lemma_parse_items(l: Seq<Bencoded>, rest: Seq<u8>, done: Seq<Span>, used: nat)
    requires
        forall|i: int| 0 <= i < l.len() ==> parse_fits(#[trigger] l[i]),
    ensures
        parse_items_spec(encode_items(l) + seq![END] + rest, done, used) == ParseOutcome::Parsed(
            (done + spanned_items(l), used + encode_items(l).len()),
        ),
    decreases l,
{
    let t = encode_items(l) + seq![END] + rest;
    if l.len() == 0 {
        assert(t[0] == END);
        assert(done + spanned_items(l) =~= done);
    } else {
        lemma_encode_items_first(l);
        let tail = encode_items(l.drop_first()) + seq![END] + rest;
        assert(t =~= encoding(l[0]) + tail);
        lemma_encoding_first(l[0]);
        assert(t[0] == encoding(l[0])[0]);
        assert(parse_fits(l[0]));
        lemma_parse_encoding(l[0], tail);
        let n = encoding(l[0]).len();
        assert(t.subrange(n as int, t.len() as int) =~= tail);
        assert forall|i: int| 0 <= i < l.drop_first().len() implies parse_fits(#[trigger] l.drop_first()[i]) by {
            assert(l.drop_first()[i] == l[i + 1]);
        }
        lemma_parse_items(l.drop_first(), rest, done.push(spanned(l[0])), used + n);
        assert(done.push(spanned(l[0])) + spanned_items(l.drop_first()) =~= done + spanned_items(l));
    }
}

#[verifier::spinoff_prover]
#[verifier::rlimit(60)]
proof fn lemma_parse_entries_step(
    p: Seq<(Seq<char>, Bencoded)>,
    rest: Seq<u8>,
    done: Seq<(Seq<char>, Span)>,
    used: nat,
)
    requires
        p.len() > 0,
        parse_fits_entry(p[0]),
        key_index(done, p[0].0) is None,
        parse_any_spec(encoding(p[0].1) + (encode_entries(p.drop_first()) + seq![END] + rest))
            == ParseOutcome::Parsed(spanned(p[0].1)),
    ensures
        parse_entries_spec(encode_entries(p) + seq![END] + rest, done, used) == parse_entries_spec(
            encode_entries(p.drop_first()) + seq![END] + rest,
            done.push((p[0].0, spanned(p[0].1))),
            used + encoding(Bencoded::Str(p[0].0)).len() + encoding(p[0].1).len(),
        ),
{
    let t = encode_entries(p) + seq![END] + rest;
    lemma_encode_entries_first(p);
    let k = p[0].0;
    let v = p[0].1;
    let tail = encode_entries(p.drop_first()) + seq![END] + rest;
    let kb = encode_bytes(encode_utf8(k));
    assert(t =~= kb + (encoding(v) + tail));
    lemma_parse_str_bencoding(k, encoding(v) + tail);
    let n1 = kb.len();
    let t2 = t.subrange(n1 as int, t.len() as int);
    assert(t2 =~= encoding(v) + tail);
    lemma_decimal(encode_utf8(k).len());
    assert(is_digit(decimal(encode_utf8(k).len())[0]));
    assert(t[0] == kb[0]);
    let n2 = encoding(v).len();
    lemma_encoding_first(v);
    assert(t2.subrange(n2 as int, t2.len() as int) =~= tail);
}

proof fn lemma_parse_entries(
    p: Seq<(Seq<char>, Bencoded)>,
    rest: Seq<u8>,
    done: Seq<(Seq<char>, Span)>,
    used: nat,
)
    requires
        forall|i: int| 0 <= i < p.len() ==> parse_fits_entry(#[trigger] p[i]),
        forall|i: int, j: int| 0 <= i < j < p.len() ==> p[i].0 != p[j].0,
        forall|i: int, j: int| 0 <= i < p.len() && 0 <= j < done.len() ==> done[j].0 != p[i].0,
    ensures
        parse_entries_spec(encode_entries(p) + seq![END] + rest, done, used) == ParseOutcome::Parsed(
            (done + spanned_entries(p), used + encode_entries(p).len()),
        ),
    decreases p,
{
    let t = encode_entries(p) + seq![END] + rest;
    if p.len() == 0 {
        assert(t[0] == END);
        assert(done + spanned_entries(p) =~= done);
    } else {
        let tail = encode_entries(p.drop_first()) + seq![END] + rest;
        assert(parse_fits_entry(p[0]));
        lemma_parse_encoding(p[0].1, tail);
        lemma_key_index_bounds(done, p[0].0);
        if key_index(done, p[0].0) is Some {
            let j = key_index(done, p[0].0)->0;
            assert(done[j].0 != p[0].0);
        }
        lemma_parse_entries_step(p, rest, done, used);
        lemma_encode_entries_first(p);
        let d2 = done.push((p[0].0, spanned(p[0].1)));
        assert forall|i: int| 0 <= i < p.drop_first().len() implies parse_fits_entry(#[trigger] p.drop_first()[i]) by {
            assert(p.drop_first()[i] == p[i + 1]);
        }
        assert forall|i: int, j: int| 0 <= i < j < p.drop_first().len() implies p.drop_first()[i].0 != p.drop_first()[j].0 by {
            assert(p.drop_first()[i] == p[i + 1]);
            assert(p.drop_first()[j] == p[j + 1]);
        }
        assert forall|i: int, j: int| 0 <= i < p.drop_first().len() && 0 <= j < d2.len() implies d2[j].0 != p.drop_first()[i].0 by {
            assert(p.drop_first()[i] == p[i + 1]);
            if j == done.len() {
                assert(d2[j].0 == p[0].0);
            } else {
                assert(d2[j] == done[j]);
            }
        }
        lemma_parse_entries(
            p.drop_first(),
            rest,
            d2,
            used + encoding(Bencoded::Str(p[0].0)).len() + encoding(p[0].1).len(),
        );
        assert(d2 + spanned_entries(p.drop_first()) =~= done + spanned_entries(p));
    }
}

} // verus!
