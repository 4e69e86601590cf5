//! The bencoding of a value.
use vstd::prelude::*;
use vstd::utf8::encode_utf8;
use crate::bencode::types::{entry_model, BencodeItem, BencodeEncoder, Bencoded, INT_START, LIST_START, DICT_START, END, COLON};
use crate::decimal::{decimal, signed_decimal, push_decimal, push_signed_decimal};

verus! {

/// The bencoding of a byte string: its length in decimal, `:`, then the bytes.
pub open spec fn encode_bytes(b: Seq<u8>) -> Seq<u8> {
    decimal(b.len()) + seq![COLON] + b
}

/// The bencoding of a value.
pub open spec fn encoding(v: Bencoded) -> Seq<u8>
    decreases v,
{
    match v {
        Bencoded::Num(n) => seq![INT_START] + signed_decimal(n) + seq![END],
        Bencoded::Bin(b) => encode_bytes(b),
        Bencoded::Str(s) => encode_bytes(encode_utf8(s)),
        Bencoded::List(l) => seq![LIST_START] + encode_items(l) + seq![END],
        Bencoded::Pair(p) => seq![DICT_START] + encode_entries(p) + seq![END],
    }
}

/// The bencodings of the items of a list, one after the other.
pub open spec fn encode_items(l: Seq<Bencoded>) -> Seq<u8>
    decreases l,
{
    if l.len() == 0 {
        Seq::empty()
    } else {
        encode_items(l.drop_last()) + encoding(l.last())
    }
}

/// The bencodings of the entries of a dictionary: each key as a byte string,
/// then its value.
pub open spec fn encode_entries(p: Seq<(Seq<char>, Bencoded)>) -> Seq<u8>
    decreases p,
{
    if p.len() == 0 {
        Seq::empty()
    } else {
        encode_entries(p.drop_last()) + encode_bytes(encode_utf8(p.last().0)) + encoding(
            p.last().1,
        )
    }
}

/// The models of the items of a list.
pub open spec fn items_view(x: Seq<BencodeItem>) -> Seq<Bencoded> {
    Seq::new(x.len(), |i: int| x[i]@)
}

/// The models of the entries of a dictionary.
pub open spec fn entries_view(x: Seq<(String, BencodeItem)>) -> Seq<(Seq<char>, Bencoded)> {
    Seq::new(x.len(), |i: int| (x[i].0@, x[i].1@))
}

pub proof fn lemma_view_list(x: Vec<BencodeItem>)
    ensures
        BencodeItem::List(x)@ == Bencoded::List(items_view(x@)),
{
    let v = BencodeItem::List(x);
    assert(v@ is List);
    let l = v@->List_0;
    assert(l.len() == x@.len());
    assert forall|i: int| 0 <= i < l.len() implies l[i] == items_view(x@)[i] by {}
    assert(l =~= items_view(x@));
}

pub proof fn lemma_view_pair(x: Vec<(String, BencodeItem)>)
    ensures
        BencodeItem::Pair(x)@ == Bencoded::Pair(entries_view(x@)),
{
    let v = BencodeItem::Pair(x);
    let l = v@->Pair_0;
    assert(l.len() == x@.len());
    assert forall|i: int| 0 <= i < l.len() implies l[i] == entries_view(x@)[i] by {
        assert(l[i] == entry_model(&x@[i]));
        assert(entry_model(&x@[i]) == (x@[i].0@, x@[i].1@));
    }
    assert(l =~= entries_view(x@));
}

/// A bencoding is at least two bytes long.
pub proof fn lemma_encoding_len(v: Bencoded)
    ensures
        encoding(v).len() >= 2,
{
    match v {
        Bencoded::Num(n) => {},
        Bencoded::Bin(b) => {
            crate::decimal::lemma_decimal(b.len());
        },
        Bencoded::Str(s) => {
            crate::decimal::lemma_decimal(encode_utf8(s).len());
        },
        _ => {},
    }
}

impl BencodeEncoder {
    fn encode_utf8_str(item: &str, to: &mut Vec<u8>)
        ensures
            final(to)@ == old(to)@ + encode_utf8(item@),
    {
        Self::push_bytes(item.as_bytes(), to);
    }

    fn push_bytes(item: &[u8], to: &mut Vec<u8>)
        ensures
            final(to)@ == old(to)@ + item@,
    {
        let mut i: usize = 0;
        while i < item.len()
            invariant
                i <= item@.len(),
                to@ == old(to)@ + item@.subrange(0, i as int),
            decreases item@.len() - i,
        {
            to.push(item[i]);
            i = i + 1;
            assert(to@ =~= old(to)@ + item@.subrange(0, i as int));
        }
        assert(item@.subrange(0, i as int) =~= item@);
    }

    fn encode_num(item: &i64, to: &mut Vec<u8>)
        ensures
            final(to)@ == old(to)@ + encoding(Bencoded::Num(*item as int)),
    {
        to.push(INT_START);
        push_signed_decimal(*item, to);
        to.push(END);
        assert(final(to)@ =~= old(to)@ + encoding(Bencoded::Num(*item as int)));
    }

    fn encode_bin(item: &[u8], to: &mut Vec<u8>)
        ensures
            final(to)@ == old(to)@ + encode_bytes(item@),
    {
        push_decimal(item.len() as u64, to);
        to.push(COLON);
        Self::push_bytes(item, to);
        assert(final(to)@ =~= old(to)@ + encode_bytes(item@));
    }

    fn encode_str(item: &str, to: &mut Vec<u8>)
        ensures
            final(to)@ == old(to)@ + encode_bytes(encode_utf8(item@)),
    {
        Self::encode_bin(item.as_bytes(), to);
    }

    fn encode_list(item: &Vec<BencodeItem>, to: &mut Vec<u8>)
        ensures
            final(to)@ == old(to)@ + encoding(Bencoded::List(items_view(item@))),
        decreases item,
    {
        let ghost vs = items_view(item@);
        to.push(LIST_START);
        let mut i: usize = 0;
        while i < item.len()
            invariant
                i <= item@.len(),
                vs == items_view(item@),
                to@ == old(to)@ + seq![LIST_START] + encode_items(vs.subrange(0, i as int)),
            decreases item@.len() - i,
        {
            proof {
                assert(decreases_to!(item => item@[i as int]));
            }
            Self::encode_any(&item[i], to);
            proof {
                let s = vs.subrange(0, i + 1);
                assert(s.drop_last() =~= vs.subrange(0, i as int));
                assert(s.last() == vs[i as int]);
            }
            i = i + 1;
            assert(to@ =~= old(to)@ + seq![LIST_START] + encode_items(vs.subrange(0, i as int)));
        }
        to.push(END);
        assert(vs.subrange(0, i as int) =~= vs);
        assert(final(to)@ =~= old(to)@ + encoding(Bencoded::List(vs)));
    }

    fn encode_pair(item: &Vec<(String, BencodeItem)>, to: &mut Vec<u8>)
        ensures
            final(to)@ == old(to)@ + encoding(Bencoded::Pair(entries_view(item@))),
        decreases item,
    {
        let ghost vs = entries_view(item@);
        to.push(DICT_START);
        let mut i: usize = 0;
        while i < item.len()
            invariant
                i <= item@.len(),
                vs == entries_view(item@),
                to@ == old(to)@ + seq![DICT_START] + encode_entries(vs.subrange(0, i as int)),
            decreases item@.len() - i,
        {
            proof {
                assert(decreases_to!(item => item@[i as int].1));
            }
            Self::encode_str(item[i].0.as_str(), to);
            Self::encode_any(&item[i].1, to);
            proof {
                let s = vs.subrange(0, i + 1);
                assert(s.drop_last() =~= vs.subrange(0, i as int));
                assert(s.last() == vs[i as int]);
            }
            i = i + 1;
            assert(to@ =~= old(to)@ + seq![DICT_START] + encode_entries(vs.subrange(0, i as int)));
        }
        to.push(END);
        assert(vs.subrange(0, i as int) =~= vs);
        assert(final(to)@ =~= old(to)@ + encoding(Bencoded::Pair(vs)));
    }

    fn encode_any(item: &BencodeItem, to: &mut Vec<u8>)
        ensures
            final(to)@ == old(to)@ + encoding(item@),
        decreases item,
    {
        match item {
            BencodeItem::Num(x) => Self::encode_num(&x, to),
            BencodeItem::Bin(x) => Self::encode_bin(x.as_slice(), to),
            BencodeItem::Str(x) => Self::encode_str(x.as_str(), to),
            BencodeItem::List(x) => {
                proof {
                    lemma_view_list(*x);
                }
                Self::encode_list(&x, to)
            },
            BencodeItem::Pair(x) => {
                proof {
                    lemma_view_pair(*x);
                }
                Self::encode_pair(&x, to)
            },
        }
    }
}

impl BencodeEncoder {
    /// The bencoding of `any`.
    pub fn encode(any: &BencodeItem) -> (r: Vec<u8>)
        ensures
            r@ == encoding(any@),
    {
        let mut bytes = Vec::new();
        Self::encode_any(any, &mut bytes);
        assert(bytes@ =~= encoding(any@));
        bytes
    }
}

} // verus!
