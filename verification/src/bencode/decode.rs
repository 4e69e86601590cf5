//! The decoder: bytes to a bencoded value.
use vstd::prelude::*;
use vstd::utf8::{decode_utf8, valid_utf8};
use crate::bencode::encode::{encoding, lemma_encoding_len, items_view, entries_view, lemma_view_list, lemma_view_pair};
use crate::bencode::types::{TryAsRef, BencodeItem, BencodeDecoder, BencodeEncoder, Bencoded, INT_START, LIST_START, DICT_START, END, COLON};
use crate::decimal::{parse_isize, parse_isize_spec};
use crate::outcome::{Outcome, Overrun};
use crate::scan::{first_index, position};
use crate::utf8::{string_from_utf8, utf8_error_message};

verus! {

/// The integer of `i...e` at the start of `s` (where `s[0]` is `i`): the text
/// up to the first `e`, read as an `isize`.
pub open spec fn decode_num_spec(s: Seq<u8>) -> Option<int> {
    match first_index(s, END) {
        None => None,
        Some(e) => match parse_isize_spec(s.subrange(1, e)) {
            Some(v) => Some(v as int),
            None => None,
        },
    }
}

/// The bytes of the byte string `N:...` at the start of `s`: `N` is the text
/// before the first `:`, read as an `isize` and taken as a `usize`; the bytes
/// must all be there.
pub open spec fn decode_bin_spec(s: Seq<u8>) -> Option<Seq<u8>> {
    match first_index(s, COLON) {
        None => None,
        Some(c) => match parse_isize_spec(s.subrange(0, c)) {
            None => None,
            Some(v) => {
                let size = v as usize;
                if size <= s.len() - c - 1 {
                    Some(s.subrange(c + 1, c + 1 + size))
                } else {
                    None
                }
            },
        },
    }
}

/// The text of the byte string at the start of `s`, where its bytes are UTF-8.
pub open spec fn decode_str_spec(s: Seq<u8>) -> Option<Seq<char>> {
    match decode_bin_spec(s) {
        Some(b) => if valid_utf8(b) {
            Some(decode_utf8(b))
        } else {
            None
        },
        None => None,
    }
}

/// `x` in front of the items of `o`, when `o` succeeds.
pub open spec fn cons_outcome<T>(x: T, o: Outcome<Seq<T>>) -> Outcome<Seq<T>> {
    match o {
        Outcome::Success(rest) => Outcome::Success(seq![x] + rest),
        Outcome::Failure => Outcome::Failure,
        Outcome::Overrun => Outcome::Overrun,
    }
}

/// `done` in front of the items of `o`, when `o` succeeds.
pub open spec fn append_outcome<T>(done: Seq<T>, o: Outcome<Seq<T>>) -> Outcome<Seq<T>> {
    match o {
        Outcome::Success(rest) => Outcome::Success(done + rest),
        Outcome::Failure => Outcome::Failure,
        Outcome::Overrun => Outcome::Overrun,
    }
}

/// What the decoder makes of `s`: the value at its start, where a value
/// starts with `i` (integer), `l` (list), `d` (dictionary) or anything else
/// (byte string). A list or dictionary runs until an `e` or the end of the
/// input; after each element the decoder moves on by the length of that
/// element's own (canonical) bencoding, and overruns where that is longer
/// than what is left.
pub open spec fn decode_any_spec(s: Seq<u8>) -> Outcome<Bencoded>
    decreases s.len(), 0int,
{
    if s.len() == 0 {
        Outcome::Failure
    } else if s[0] == INT_START {
        match decode_num_spec(s) {
            Some(n) => Outcome::Success(Bencoded::Num(n)),
            None => Outcome::Failure,
        }
    } else if s[0] == LIST_START {
        list_outcome(decode_items_spec(s.subrange(1, s.len() as int)))
    } else if s[0] == DICT_START {
        pair_outcome(decode_entries_spec(s.subrange(1, s.len() as int)))
    } else {
        match decode_bin_spec(s) {
            Some(b) => Outcome::Success(Bencoded::Bin(b)),
            None => Outcome::Failure,
        }
    }
}

/// The items of a list whose body starts at `t`.
pub open spec fn decode_items_spec(t: Seq<u8>) -> Outcome<Seq<Bencoded>>
    decreases t.len(), 1int,
{
    if t.len() == 0 || t[0] == END {
        Outcome::Success(Seq::empty())
    } else {
        match decode_any_spec(t) {
            Outcome::Success(item) => {
                let n = encoding(item).len();
                if n > t.len() {
                    Outcome::Overrun
                } else {
                    proof {
                        lemma_encoding_len(item);
                    }
                    cons_outcome(item, decode_items_spec(t.subrange(n as int, t.len() as int)))
                }
            },
            Outcome::Failure => Outcome::Failure,
            Outcome::Overrun => Outcome::Overrun,
        }
    }
}

/// The entries of a dictionary whose body starts at `t`: each key is a byte
/// string holding UTF-8 text, followed by a value.
pub open spec fn decode_entries_spec(t: Seq<u8>) -> Outcome<Seq<(Seq<char>, Bencoded)>>
    decreases t.len(), 1int,
{
    if t.len() == 0 || t[0] == END {
        Outcome::Success(Seq::empty())
    } else {
        match decode_str_spec(t) {
            None => Outcome::Failure,
            Some(k) => {
                let n1 = encoding(Bencoded::Str(k)).len();
                if n1 > t.len() {
                    Outcome::Overrun
                } else {
                    proof {
                        lemma_encoding_len(Bencoded::Str(k));
                    }
                    let t2 = t.subrange(n1 as int, t.len() as int);
                    match decode_any_spec(t2) {
                        Outcome::Success(v) => {
                            let n2 = encoding(v).len();
                            if n2 > t2.len() {
                                Outcome::Overrun
                            } else {
                                proof {
                                    lemma_encoding_len(v);
                                }
                                cons_outcome(
                                    (k, v),
                                    decode_entries_spec(t2.subrange(n2 as int, t2.len() as int)),
                                )
                            }
                        },
                        Outcome::Failure => Outcome::Failure,
                        Outcome::Overrun => Outcome::Overrun,
                    }
                }
            },
        }
    }
}

/// A list with the items of `o`, when `o` succeeds.
pub open spec fn list_outcome(o: Outcome<Seq<Bencoded>>) -> Outcome<Bencoded> {
    match o {
        Outcome::Success(l) => Outcome::Success(Bencoded::List(l)),
        Outcome::Failure => Outcome::Failure,
        Outcome::Overrun => Outcome::Overrun,
    }
}

/// A dictionary with the entries of `o`, when `o` succeeds.
pub open spec fn pair_outcome(o: Outcome<Seq<(Seq<char>, Bencoded)>>) -> Outcome<Bencoded> {
    match o {
        Outcome::Success(p) => Outcome::Success(Bencoded::Pair(p)),
        Outcome::Failure => Outcome::Failure,
        Outcome::Overrun => Outcome::Overrun,
    }
}

pub proof fn lemma_append_cons<T>(done: Seq<T>, x: T, o: Outcome<Seq<T>>)
    ensures
        append_outcome(done, cons_outcome(x, o)) == append_outcome(done + seq![x], o),
{
    if let Outcome::Success(r) = o {
        assert(done + (seq![x] + r) =~= (done + seq![x]) + r);
    }
}

/// The outcome that an executable decoding result stands for.
pub open spec fn result_view(r: Result<Option<BencodeItem>, Overrun>) -> Outcome<Bencoded> {
    match r {
        Ok(Some(item)) => Outcome::Success(item@),
        Ok(None) => Outcome::Failure,
        Err(_) => Outcome::Overrun,
    }
}

impl BencodeItem {
    /// The length of the bencoding of the value.
    fn size(&self) -> (r: usize)
        ensures
            r == encoding(self@).len(),
    {
        BencodeEncoder::encode(self).len()
    }
}

impl BencodeDecoder {
    fn find(from: &[u8], what: u8) -> (r: Option<usize>)
        ensures
            match r {
                Some(i) => first_index(from@, what) == Some(i as int),
                None => first_index(from@, what) is None,
            },
    {
        position(from, what)
    }

    fn try_decode_isize(from: &[u8]) -> (r: Option<isize>)
        ensures
            r == parse_isize_spec(from@),
    {
        parse_isize(from)
    }

    fn try_decode_num(from: &[u8]) -> (r: Option<BencodeItem>)
        requires
            from@.len() > 0,
            from@[0] == INT_START,
        ensures
            match r {
                Some(item) => decode_num_spec(from@) == Some(item@->Num_0),
                None => decode_num_spec(from@) is None,
            },
            r matches Some(item) ==> item is Num,
    {
        proof {
            crate::scan::lemma_first_index(from@, INT_START);
        }
        let ipos = match Self::find(from, INT_START) {
            Some(i) => i,
            None => return None,
        };
        let epos = match Self::find(from, END) {
            Some(e) => e,
            None => return None,
        };
        proof {
            crate::scan::lemma_first_index(from@, END);
            if ipos > 0 {
                assert(from@[0] != INT_START);
            }
        }
        let base = &from[ipos + 1..epos];
        let data = match Self::try_decode_isize(base) {
            Some(d) => d,
            None => return None,
        };
        assert(base@ =~= from@.subrange(1, epos as int));
        assert((data as i64) as int == data as int);
        Some(BencodeItem::Num(data as i64))
    }

    fn try_decode_bin(from: &[u8]) -> (r: Option<BencodeItem>)
        ensures
            match r {
                Some(item) => item matches BencodeItem::Bin(b) && decode_bin_spec(from@) == Some(b@),
                None => decode_bin_spec(from@) is None,
            },
    {
        let cpos = match Self::find(from, COLON) {
            Some(c) => c,
            None => return None,
        };
        proof {
            crate::scan::lemma_first_index(from@, COLON);
        }
        let base = &from[0..cpos];
        let size = match Self::try_decode_isize(base) {
            Some(v) => v as usize,
            None => return None,
        };
        if size <= from.len() - cpos - 1 {
            let data = vstd::slice::slice_to_vec(&from[cpos + 1..cpos + 1 + size]);
            return Some(BencodeItem::Bin(data));
        }
        None
    }

    fn try_decode_str(from: &[u8]) -> (r: Option<BencodeItem>)
        ensures
            match r {
                Some(item) => item matches BencodeItem::Str(s) && decode_str_spec(from@) == Some(s@),
                None => decode_str_spec(from@) is None,
            },
    {
        if let Some(BencodeItem::Bin(base)) = Self::try_decode_bin(from) {
            let data = match string_from_utf8(base) {
                Ok(s) => s,
                Err(_) => return None,
            };
            return Some(BencodeItem::Str(data));
        }
        None
    }

    fn try_decode_list(from: &[u8]) -> (r: Result<Option<BencodeItem>, Overrun>)
        requires
            from@.len() > 0,
            from@[0] == LIST_START,
        ensures
            result_view(r) == decode_any_spec(from@),
        decreases from@.len(), 0int,
    {
        let mut list: Vec<BencodeItem> = Vec::new();
        proof {
            crate::scan::lemma_first_index(from@, LIST_START);
        }
        let lpos = match Self::find(from, LIST_START) {
            Some(l) => l,
            None => return Ok(None),
        };
        proof {
            if lpos > 0 {
                assert(from@[0] != LIST_START);
            }
        }
        let ghost body = from@.subrange(1, from@.len() as int);
        let ghost whole = decode_any_spec(from@);
        assert(whole == list_outcome(decode_items_spec(body)));
        let mut rest = &from[lpos + 1..from.len()];
        let ghost mut pos: int = 1;
        while rest.len() > 0 && rest[0] != END
            invariant
                1 <= pos <= from@.len(),
                rest@ == from@.subrange(pos, from@.len() as int),
                whole == decode_any_spec(from@),
                whole == list_outcome(decode_items_spec(body)),
                decode_items_spec(body) == append_outcome(items_view(list@), decode_items_spec(rest@)),
            decreases rest@.len(),
        {
            let ghost prev = list@;
            let ghost prev_rest = rest@;
            let item = match Self::try_decode_any(rest) {
                Ok(Some(i)) => i,
                Ok(None) => {
                    assert(decode_items_spec(prev_rest) == Outcome::<Seq<Bencoded>>::Failure);
                    return Ok(None);
                },
                Err(e) => {
                    assert(decode_items_spec(prev_rest) == Outcome::<Seq<Bencoded>>::Overrun);
                    return Err(e);
                },
            };
            let n = item.size();
            if n > rest.len() {
                assert(decode_items_spec(prev_rest) == Outcome::<Seq<Bencoded>>::Overrun);
                return Err(Overrun);
            }
            proof {
                lemma_encoding_len(item@);
            }
            rest = &rest[n..rest.len()];
            proof {
                pos = pos + n;
            }
            list.push(item);
            proof {
                assert(rest@ =~= from@.subrange(pos, from@.len() as int));
                assert(decode_items_spec(prev_rest) == cons_outcome(item@, decode_items_spec(rest@)));
                lemma_append_cons(items_view(prev), item@, decode_items_spec(rest@));
                assert(items_view(list@) =~= items_view(prev) + seq![item@]);
            }
        }
        proof {
            assert(decode_items_spec(rest@) == Outcome::<Seq<Bencoded>>::Success(Seq::empty()));
            assert(items_view(list@) + Seq::<Bencoded>::empty() =~= items_view(list@));
            lemma_view_list(list);
        }
        Ok(Some(BencodeItem::List(list)))
    }

    fn try_decode_pair(from: &[u8]) -> (r: Result<Option<BencodeItem>, Overrun>)
        requires
            from@.len() > 0,
            from@[0] == DICT_START,
        ensures
            result_view(r) == decode_any_spec(from@),
        decreases from@.len(), 0int,
    {
        let mut pair: Vec<(String, BencodeItem)> = Vec::new();
        proof {
            crate::scan::lemma_first_index(from@, DICT_START);
        }
        let lpos = match Self::find(from, DICT_START) {
            Some(l) => l,
            None => return Ok(None),
        };
        proof {
            if lpos > 0 {
                assert(from@[0] != DICT_START);
            }
        }
        let ghost body = from@.subrange(1, from@.len() as int);
        let ghost whole = decode_any_spec(from@);
        assert(whole == pair_outcome(decode_entries_spec(body)));
        let mut rest = &from[lpos + 1..from.len()];
        let ghost mut pos: int = 1;
        while rest.len() > 0 && rest[0] != END
            invariant
                1 <= pos <= from@.len(),
                rest@ == from@.subrange(pos, from@.len() as int),
                whole == decode_any_spec(from@),
                whole == pair_outcome(decode_entries_spec(body)),
                decode_entries_spec(body) == append_outcome(entries_view(pair@), decode_entries_spec(rest@)),
            decreases rest@.len(),
        {
            let ghost prev = pair@;
            let ghost prev_rest = rest@;
            let key = match Self::try_decode_str(rest) {
                Some(k) => k,
                None => {
                    assert(decode_entries_spec(prev_rest) == Outcome::<Seq<(Seq<char>, Bencoded)>>::Failure);
                    return Ok(None);
                },
            };
            let ksize = key.size();
            if ksize > rest.len() {
                assert(decode_entries_spec(prev_rest) == Outcome::<Seq<(Seq<char>, Bencoded)>>::Overrun);
                return Err(Overrun);
            }
            proof {
                lemma_encoding_len(key@);
            }
            rest = &rest[ksize..rest.len()];
            let ghost rest2 = rest@;
            assert(rest2 =~= prev_rest.subrange(ksize as int, prev_rest.len() as int));
            let val = match Self::try_decode_any(rest) {
                Ok(Some(v)) => v,
                Ok(None) => {
                    assert(decode_entries_spec(prev_rest) == Outcome::<Seq<(Seq<char>, Bencoded)>>::Failure);
                    return Ok(None);
                },
                Err(e) => {
                    assert(decode_entries_spec(prev_rest) == Outcome::<Seq<(Seq<char>, Bencoded)>>::Overrun);
                    return Err(e);
                },
            };
            let vsize = val.size();
            if vsize > rest.len() {
                assert(decode_entries_spec(prev_rest) == Outcome::<Seq<(Seq<char>, Bencoded)>>::Overrun);
                return Err(Overrun);
            }
            proof {
                lemma_encoding_len(val@);
            }
            rest = &rest[vsize..rest.len()];
            proof {
                pos = pos + ksize + vsize;
            }
            let k = match key.try_into() {
                Ok(s) => s,
                Err(_) => return Ok(None),
            };
            let ghost kv = k@;
            pair.push((k, val));
            proof {
                assert(rest@ =~= from@.subrange(pos, from@.len() as int));
                assert(rest@ =~= rest2.subrange(vsize as int, rest2.len() as int));
                assert(decode_entries_spec(prev_rest) == cons_outcome((kv, val@), decode_entries_spec(rest@)));
                lemma_append_cons(entries_view(prev), (kv, val@), decode_entries_spec(rest@));
                assert(entries_view(pair@) =~= entries_view(prev) + seq![(kv, val@)]);
            }
        }
        proof {
            assert(entries_view(pair@) + Seq::<(Seq<char>, Bencoded)>::empty() =~= entries_view(pair@));
            lemma_view_pair(pair);
        }
        Ok(Some(BencodeItem::Pair(pair)))
    }

    fn try_decode_any(from: &[u8]) -> (r: Result<Option<BencodeItem>, Overrun>)
        ensures
            result_view(r) == decode_any_spec(from@),
        decreases from@.len(), 1int,
    {
        let byte = match from.first() {
            Some(b) => *b,
            None => return Ok(None),
        };
        if byte == INT_START {
            let r = Self::try_decode_num(from);
            proof {
                if r is Some {
                    assert(r->0@ == Bencoded::Num(r->0@->Num_0));
                }
            }
            Ok(r)
        } else if byte == LIST_START {
            Self::try_decode_list(from)
        } else if byte == DICT_START {
            Self::try_decode_pair(from)
        } else {
            Ok(Self::try_decode_bin(from))
        }
    }
}

impl BencodeDecoder {
    /// Decodes the value at the start of `from`; `None` where the input is
    /// no bencoding that the decoder accepts. The input must not make the
    /// decoder read past its end (see `try_decode`).
    pub fn decode(from: &[u8]) -> (r: Option<BencodeItem>)
        requires
            !(decode_any_spec(from@) is Overrun),
        ensures
            match decode_any_spec(from@) {
                Outcome::Success(v) => r matches Some(item) && item@ == v,
                _ => r is None,
            },
    {
        match Self::try_decode_any(from) {
            Ok(r) => r,
            Err(_) => None,
        }
    }

    /// Decodes the value at the start of `from`, as `decode` does, and tells
    /// the inputs on which `decode` would read past the end of its input.
    pub fn try_decode(from: &[u8]) -> (r: Result<Option<BencodeItem>, Overrun>)
        ensures
            result_view(r) == decode_any_spec(from@),
    {
        Self::try_decode_any(from)
    }
}

impl BencodeItem {
    /// The text of a text value, or of a byte string that holds UTF-8.
    pub fn try_into(self) -> (ret: Result<String, String>)
        ensures
            match self@ {
                Bencoded::Str(s) => ret matches Ok(x) && x@ == s,
                Bencoded::Bin(b) => (ret is Ok <==> valid_utf8(b)) && (ret matches Ok(x) ==> x@
                    == decode_utf8(b)),
                _ => ret matches Err(e) && e@ == "Cannot convert to String, wrong BencodeItem"@,
            },
    {
        match self {
            BencodeItem::Str(x) => Ok(x),
            BencodeItem::Bin(x) => match string_from_utf8(x) {
                Ok(s) => Ok(s),
                Err(e) => Err(utf8_error_message(&e)),
            },
            _ => Err("Cannot convert to String, wrong BencodeItem".to_owned()),
        }
    }
}

impl TryAsRef<str> for BencodeItem {
    /// The text of a text value.
    open spec fn try_as_ref_gives(&self, r: Option<&str>) -> bool {
        match self@ {
            Bencoded::Str(s) => r matches Some(x) && x@ == s,
            _ => r is None,
        }
    }

    fn try_as_ref(&self) -> (r: Option<&str>) {
        match &self {
            BencodeItem::Str(x) => Some(x.as_str()),
            _ => None,
        }
    }
}

impl TryAsRef<Vec<BencodeItem>> for BencodeItem {
    /// The items of a list.
    open spec fn try_as_ref_gives(&self, r: Option<&Vec<BencodeItem>>) -> bool {
        match self {
            BencodeItem::List(x) => r == Some(x),
            _ => r is None,
        }
    }

    fn try_as_ref(&self) -> (r: Option<&Vec<BencodeItem>>) {
        match &self {
            BencodeItem::List(x) => Some(x),
            _ => None,
        }
    }
}

impl TryAsRef<Vec<(String, BencodeItem)>> for BencodeItem {
    /// The entries of a dictionary.
    open spec fn try_as_ref_gives(&self, r: Option<&Vec<(String, BencodeItem)>>) -> bool {
        match self {
            BencodeItem::Pair(x) => r == Some(x),
            _ => r is None,
        }
    }

    fn try_as_ref(&self) -> (r: Option<&Vec<(String, BencodeItem)>>) {
        match &self {
            BencodeItem::Pair(x) => Some(x),
            _ => None,
        }
    }
}

} // verus!
