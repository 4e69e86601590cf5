//! The bencoded values and their mathematical model.
use vstd::prelude::*;

verus! {

/// `i`: an integer starts.
pub const INT_START: u8 = 105;

/// `l`: a list starts.
pub const LIST_START: u8 = 108;

/// `d`: a dictionary starts.
pub const DICT_START: u8 = 100;

/// `e`: an integer, a list or a dictionary ends.
pub const END: u8 = 101;

/// `:` separates the length of a byte string from its bytes.
pub const COLON: u8 = 58;

pub type Bin = Vec<u8>;

pub type List = Vec<BencodeItem>;

pub type Pair = Vec<(String, BencodeItem)>;

/// A bencoded value.
#[derive(Debug, PartialEq)]
pub enum BencodeItem {
    Num(i64),
    Bin(Vec<u8>),
    Str(String),
    List(Vec<BencodeItem>),
    // to keep the order of the entries, a dictionary is a vector of pairs
    Pair(Vec<(String, BencodeItem)>),
}

pub struct BencodeDecoder;

pub struct BencodeEncoder;

/// Borrows the content of a value when it is of the kind `T`.
pub trait TryAsRef<T: ?Sized> {
    /// `r` is what `try_as_ref` gives on `self`.
    spec fn try_as_ref_gives(&self, r: Option<&T>) -> bool;

    fn try_as_ref(&self) -> (r: Option<&T>)
        ensures
            self.try_as_ref_gives(r),
    ;
}

/// The mathematical model of a bencoded value: integers are unbounded,
/// byte strings and text are sequences, dictionaries keep their order.
pub enum Bencoded {
    Num(int),
    Bin(Seq<u8>),
    Str(Seq<char>),
    List(Seq<Bencoded>),
    Pair(Seq<(Seq<char>, Bencoded)>),
}

/// The model of a value.
pub open spec fn item_model(item: &BencodeItem) -> Bencoded
    decreases item,
{
    match item {
        BencodeItem::Num(x) => Bencoded::Num(*x as int),
        BencodeItem::Bin(x) => Bencoded::Bin(x@),
        BencodeItem::Str(x) => Bencoded::Str(x@),
        BencodeItem::List(x) => Bencoded::List(
            Seq::new(
                x@.len(),
                |i: int|
                    if 0 <= i < x@.len() {
                        item_model(&x@[i])
                    } else {
                        Bencoded::Num(0)
                    },
            ),
        ),
        BencodeItem::Pair(x) => Bencoded::Pair(
            Seq::new(
                x@.len(),
                |i: int|
                    if 0 <= i < x@.len() {
                        entry_model(&x@[i])
                    } else {
                        (Seq::empty(), Bencoded::Num(0))
                    },
            ),
        ),
    }
}

/// The model of a dictionary entry.
pub open spec fn entry_model(e: &(String, BencodeItem)) -> (Seq<char>, Bencoded)
    decreases e,
{
    (e.0@, item_model(&e.1))
}

impl View for BencodeItem {
    type V = Bencoded;

    open spec fn view(&self) -> Bencoded {
        item_model(self)
    }
}

} // verus!
