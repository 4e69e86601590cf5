//! The span-keeping parser: every parsed value keeps the bytes it was read
//! from, and byte strings borrow their bytes from the input.
use vstd::prelude::*;
use vstd::utf8::{decode_utf8, valid_utf8};
use crate::bencode::types::{INT_START, LIST_START, DICT_START, END, COLON};
use crate::decimal::{parse_i64, parse_i64_spec, parse_usize, parse_usize_spec};
use crate::scan::{first_index, is_first, lemma_first_index, lemma_first_index_is, position, str_eq};
use crate::utf8::string_from_utf8;

verus! {

pub type Bytes = [u8];

pub type List<'a> = Vec<BencodeItem<'a>>;

/// A dictionary of parsed values, keyed by text, in the order in which the
/// keys were first inserted.
#[derive(Debug, PartialEq)]
pub struct Pair<'a> {
    entries: Vec<(String, BencodeItem<'a>)>,
}

/// What a parsed value holds.
#[derive(Debug, PartialEq)]
pub enum BencodeExact<'a> {
    Num(i64),
    Bin(&'a Bytes),
    Str(String),
    List(Box<List<'a>>),
    Pair(Box<Pair<'a>>),
}

/// A parsed value: the bytes of its bencoding, what they hold, and a slot
/// for a digest of those bytes.
#[derive(Debug, PartialEq)]
pub struct BencodeItem<'a> {
    pub from: &'a [u8],
    pub data: BencodeExact<'a>,
    pub hash: Option<[u8; 20]>,
}

/// A parser over a byte string, with what it has parsed so far.
pub struct BencodeParser<'a> {
    pub from: &'a [u8],
    pub data: Option<BencodeItem<'a>>,
}

/// The model of a parsed value.
pub struct Span {
    pub from: Seq<u8>,
    pub data: Exact,
    pub hash: Option<[u8; 20]>,
}

/// The model of what a parsed value holds.
pub enum Exact {
    Num(int),
    Bin(Seq<u8>),
    Str(Seq<char>),
    List(Seq<Span>),
    Pair(Seq<(Seq<char>, Span)>),
}

/// A placeholder model, for positions outside a sequence.
pub open spec fn no_span() -> Span {
    Span { from: Seq::empty(), data: Exact::Num(0), hash: None }
}

pub open spec fn span_model<'a>(item: &BencodeItem<'a>) -> Span
    decreases item,
{
    Span { from: item.from@, data: exact_model(&item.data), hash: item.hash }
}

pub open spec fn exact_model<'a>(d: &BencodeExact<'a>) -> Exact
    decreases d,
{
    match d {
        BencodeExact::Num(x) => Exact::Num(*x as int),
        BencodeExact::Bin(x) => Exact::Bin(x@),
        BencodeExact::Str(x) => Exact::Str(x@),
        BencodeExact::List(x) => Exact::List(
            Seq::new(
                x@.len(),
                |i: int|
                    if 0 <= i < x@.len() {
                        span_model(&x@[i])
                    } else {
                        no_span()
                    },
            ),
        ),
        BencodeExact::Pair(x) => Exact::Pair(pair_model(x)),
    }
}

/// The entries of a dictionary, in order.
pub closed spec fn pair_model<'a>(p: &Pair<'a>) -> Seq<(Seq<char>, Span)>
    decreases p,
{
    entries_model(p.entries@)
}

/// The models of dictionary entries, in order.
pub open spec fn entries_model<'a>(e: Seq<(String, BencodeItem<'a>)>) -> Seq<(Seq<char>, Span)>
    decreases e,
{
    Seq::new(
        e.len(),
        |i: int|
            if 0 <= i < e.len() {
                entry_span(&e[i])
            } else {
                (Seq::empty(), no_span())
            },
    )
}

pub open spec fn entry_span<'a>(e: &(String, BencodeItem<'a>)) -> (Seq<char>, Span)
    decreases e,
{
    (e.0@, span_model(&e.1))
}

impl<'a> View for BencodeItem<'a> {
    type V = Span;

    open spec fn view(&self) -> Span {
        span_model(self)
    }
}

impl<'a> View for Pair<'a> {
    type V = Seq<(Seq<char>, Span)>;

    open spec fn view(&self) -> Seq<(Seq<char>, Span)> {
        pair_model(self)
    }
}

/// The models of a sequence of parsed values.
pub open spec fn spans<'a>(x: Seq<BencodeItem<'a>>) -> Seq<Span> {
    x.map_values(|it: BencodeItem<'a>| it@)
}

/// The position of the first entry with the key `k`.
pub open spec fn key_index<V>(s: Seq<(Seq<char>, V)>, k: Seq<char>) -> Option<int>
    decreases s.len(),
{
    if s.len() == 0 {
        None
    } else if s[0].0 == k {
        Some(0)
    } else {
        match key_index(s.drop_first(), k) {
            Some(i) => Some(i + 1),
            None => None,
        }
    }
}

/// The value stored under `k`.
pub open spec fn value_under<V>(s: Seq<(Seq<char>, V)>, k: Seq<char>) -> Option<V> {
    match key_index(s, k) {
        Some(i) => Some(s[i].1),
        None => None,
    }
}

/// The entries after storing `v` under `k`: the entry of `k` takes the new
/// value where there is one, else the new entry goes last.
pub open spec fn inserted<V>(s: Seq<(Seq<char>, V)>, k: Seq<char>, v: V) -> Seq<(Seq<char>, V)> {
    match key_index(s, k) {
        Some(i) => s.update(i, (k, v)),
        None => s.push((k, v)),
    }
}

/// No key occurs twice.
pub open spec fn keys_distinct<V>(s: Seq<(Seq<char>, V)>) -> bool {
    forall|i: int, j: int| 0 <= i < j < s.len() ==> s[i].0 != s[j].0
}

/// Where the first entry of a key stands, or that no entry has the key.
pub proof fn lemma_key_index_bounds<V>(s: Seq<(Seq<char>, V)>, k: Seq<char>)
    ensures
        key_index(s, k) matches Some(i) ==> 0 <= i < s.len() && s[i].0 == k && forall|j: int|
            0 <= j < i ==> s[j].0 != k,
        key_index(s, k) is None ==> forall|j: int| 0 <= j < s.len() ==> s[j].0 != k,
    decreases s.len(),
{
    if s.len() > 0 && s[0].0 != k {
        lemma_key_index_bounds(s.drop_first(), k);
        assert forall|j: int| 0 < j < s.len() implies s[j].0 == s.drop_first()[j - 1].0 by {}
    }
}

proof fn lemma_key_index_is<V>(s: Seq<(Seq<char>, V)>, k: Seq<char>, i: int)
    requires
        0 <= i <= s.len(),
        i < s.len() ==> s[i].0 == k,
        forall|j: int| 0 <= j < i ==> s[j].0 != k,
    ensures
        key_index(s, k) == (if i < s.len() { Some(i) } else { None::<int> }),
    decreases i,
{
    if i > 0 {
        assert(s[0].0 != k);
        assert forall|j: int| 0 <= j < i - 1 implies s.drop_first()[j].0 != k by {
            assert(s.drop_first()[j] == s[j + 1]);
        }
        lemma_key_index_is(s.drop_first(), k, i - 1);
    }
}

/// After storing `v` under `k`, looking up `k` finds `v`.
pub proof fn lemma_value_under_inserted<V>(s: Seq<(Seq<char>, V)>, k: Seq<char>, v: V)
    ensures
        value_under(inserted(s, k, v), k) == Some(v),
{
    lemma_key_index_bounds(s, k);
    let t = inserted(s, k, v);
    match key_index(s, k) {
        Some(i) => {
            lemma_key_index_is(t, k, i);
        },
        None => {
            lemma_key_index_is(t, k, s.len() as int);
        },
    }
}

/// Storing a value under `k` leaves what the other keys find unchanged.
pub proof fn lemma_value_under_inserted_other<V>(s: Seq<(Seq<char>, V)>, k: Seq<char>, v: V, other: Seq<char>)
    requires
        other != k,
    ensures
        value_under(inserted(s, k, v), other) == value_under(s, other),
{
    lemma_key_index_bounds(s, k);
    lemma_key_index_bounds(s, other);
    let t = inserted(s, k, v);
    match key_index(s, other) {
        Some(i) => {
            lemma_key_index_is(t, other, i);
        },
        None => {
            lemma_key_index_is(t, other, t.len() as int);
        },
    }
}

/// Storing a value keeps the keys distinct, and adds an entry exactly when
/// the key is new.
pub proof fn lemma_inserted_keys_distinct<V>(s: Seq<(Seq<char>, V)>, k: Seq<char>, v: V)
    requires
        keys_distinct(s),
    ensures
        keys_distinct(inserted(s, k, v)),
        inserted(s, k, v).len() == s.len() + (if key_index(s, k) is Some { 0int } else { 1int }),
{
    lemma_key_index_bounds(s, k);
}

/// A copy of a parsed value, down to its nested values.
fn copy_item<'a>(item: &BencodeItem<'a>) -> (r: BencodeItem<'a>)
    ensures
        r@ == item@,
    decreases item,
{
    let data = match &item.data {
        BencodeExact::Num(x) => BencodeExact::Num(*x),
        BencodeExact::Bin(x) => BencodeExact::Bin(*x),
        BencodeExact::Str(x) => BencodeExact::Str(x.clone()),
        BencodeExact::List(x) => {
            let mut list: Vec<BencodeItem<'a>> = Vec::new();
            let mut i: usize = 0;
            while i < x.len()
                invariant
                    i <= x@.len(),
                    item.data == BencodeExact::List(*x),
                    list@.len() == i,
                    forall|j: int| 0 <= j < i ==> list@[j]@ == x@[j]@,
                decreases x@.len() - i,
            {
                proof {
                    let b = item.data->List_0;
                    assert(decreases_to!(item => item.data));
                    assert(decreases_to!(item.data => b));
                    assert(decreases_to!(b => b@));
                    assert(decreases_to!(b@ => b@[i as int]));
                }
                list.push(copy_item(&x[i]));
                i = i + 1;
            }
            let r = BencodeExact::List(Box::new(list));
            assert(exact_model(&r)->List_0 =~= exact_model(&item.data)->List_0);
            r
        },
        BencodeExact::Pair(x) => BencodeExact::Pair(Box::new(copy_pair(x))),
    };
    BencodeItem { from: item.from, data, hash: item.hash }
}

/// A copy of a dictionary, down to its nested values.
fn copy_pair<'a>(p: &Pair<'a>) -> (r: Pair<'a>)
    ensures
        r@ == p@,
    decreases p,
{
    proof {
        use_type_invariant(p);
    }
    let mut entries: Vec<(String, BencodeItem<'a>)> = Vec::new();
    let mut i: usize = 0;
    while i < p.entries.len()
        invariant
            i <= p.entries@.len(),
            entries@.len() == i,
            forall|j: int| 0 <= j < i ==> entry_span(&entries@[j]) == entry_span(&p.entries@[j]),
        decreases p.entries@.len() - i,
    {
        let e = &p.entries[i];
        entries.push((e.0.clone(), copy_item(&e.1)));
        i = i + 1;
    }
    assert(entries_model(entries@) =~= p@);
    let r = Pair { entries };
    r
}

impl<'a> Clone for BencodeItem<'a> {
    fn clone(&self) -> (r: Self)
        ensures
            r@ == self@,
    {
        copy_item(self)
    }
}

impl<'a> Clone for Pair<'a> {
    fn clone(&self) -> (r: Self)
        ensures
            r@ == self@,
    {
        copy_pair(self)
    }
}

/// The position of the first entry of `key` in `entries`.
fn index_in<'a>(entries: &Vec<(String, BencodeItem<'a>)>, key: &str) -> (r: Option<usize>)
    ensures
        match r {
            Some(i) => key_index(entries_model(entries@), key@) == Some(i as int),
            None => key_index(entries_model(entries@), key@) is None,
        },
{
    let ghost m = entries_model(entries@);
    let mut i: usize = 0;
    while i < entries.len()
        invariant
            i <= entries@.len(),
            m == entries_model(entries@),
            forall|j: int| 0 <= j < i ==> m[j].0 != key@,
        decreases entries@.len() - i,
    {
        assert(m[i as int] == entry_span(&entries@[i as int]));
        if str_eq(entries[i].0.as_str(), key) {
            proof {
                lemma_key_index_is(m, key@, i as int);
            }
            return Some(i);
        }
        i = i + 1;
    }
    proof {
        lemma_key_index_is(m, key@, i as int);
    }
    None
}

impl<'a> Pair<'a> {
    /// No key occurs twice in a dictionary.
    #[verifier::type_invariant]
    spec fn keys_are_distinct(self) -> bool {
        keys_distinct(pair_model(&self))
    }

    /// An empty dictionary.
    pub fn new() -> (r: Self)
        ensures
            r@ == Seq::<(Seq<char>, Span)>::empty(),
            keys_distinct(r@),
    {
        let entries: Vec<(String, BencodeItem<'a>)> = Vec::new();
        assert(entries_model(entries@) =~= Seq::<(Seq<char>, Span)>::empty());
        Pair { entries }
    }

    /// The number of entries.
    pub fn len(&self) -> (r: usize)
        ensures
            r == self@.len(),
    {
        self.entries.len()
    }

    /// The entries, in order; no key occurs twice.
    pub fn entries(&self) -> (r: &Vec<(String, BencodeItem<'a>)>)
        ensures
            r@.len() == self@.len(),
            forall|i: int| 0 <= i < r@.len() ==> entry_span(&r@[i]) == self@[i],
            keys_distinct(self@),
    {
        proof {
            use_type_invariant(self);
        }
        &self.entries
    }

    /// The value stored under `key`.
    pub fn get(&self, key: &str) -> (r: Option<&BencodeItem<'a>>)
        ensures
            match value_under(self@, key@) {
                Some(v) => r matches Some(x) && x@ == v,
                None => r is None,
            },
    {
        proof {
            lemma_key_index_bounds(self@, key@);
        }
        match index_in(&self.entries, key) {
            Some(i) => {
                assert(self@[i as int] == entry_span(&self.entries@[i as int]));
                let r = &self.entries[i].1;
                assert(r@ == self@[i as int].1);
                Some(r)
            },
            None => None,
        }
    }

    /// Stores `val` under `key`, and gives back the value it replaces. The
    /// keys stay distinct.
    pub fn insert(&mut self, key: String, val: BencodeItem<'a>) -> (r: Option<BencodeItem<'a>>)
        ensures
            final(self)@ == inserted(old(self)@, key@, val@),
            keys_distinct(final(self)@),
            match value_under(old(self)@, key@) {
                Some(v) => r matches Some(x) && x@ == v,
                None => r is None,
            },
    {
        proof {
            use_type_invariant(&*self);
        }
        let ghost before = self@;
        let ghost kv = (key@, val@);
        proof {
            lemma_key_index_bounds(before, key@);
            lemma_inserted_keys_distinct(before, key@, val@);
        }
        let mut entries: Vec<(String, BencodeItem<'a>)> = Vec::new();
        std::mem::swap(&mut entries, &mut self.entries);
        assert(entries_model(entries@) == before);
        let r = match index_in(&entries, key.as_str()) {
            Some(i) => {
                assert(before[i as int] == entry_span(&entries@[i as int]));
                let (_, old_val) = entries.remove(i);
                entries.insert(i, (key, val));
                proof {
                    assert(entries_model(entries@) =~= before.update(i as int, kv)) by {
                        assert forall|j: int| 0 <= j < entries@.len() implies entries_model(entries@)[j]
                            == before.update(i as int, kv)[j] by {
                            assert(entries_model(entries@)[j] == entry_span(&entries@[j]));
                        }
                    }
                }
                Some(old_val)
            },
            None => {
                entries.push((key, val));
                proof {
                    assert(entries_model(entries@) =~= before.push(kv)) by {
                        assert forall|j: int| 0 <= j < entries@.len() implies entries_model(entries@)[j]
                            == before.push(kv)[j] by {
                            assert(entries_model(entries@)[j] == entry_span(&entries@[j]));
                        }
                    }
                }
                None
            },
        };
        self.entries = entries;
        r
    }
}

/// What parsing comes to: a value, a refusal (`None`), or an abort.
pub enum ParseOutcome<T> {
    Parsed(T),
    Rejected,
    Aborted,
}

/// Parsing aborts: on a value that starts with a byte that is no printable
/// ASCII, an integer whose first `e` comes before its `i`, or a dictionary
/// key that occurs twice.
#[derive(Debug, PartialEq, Eq)]
pub struct ParseAbort;

/// A byte that prints as a visible ASCII character (`u8::is_ascii_graphic`).
pub open spec fn is_graphic(b: u8) -> bool {
    33 <= b <= 126
}

/// The integer between the first `i` and the first `e` of `s`, read as an
/// `i64`; its span runs from that `i` to that `e`. An `e` before the `i`
/// aborts. (Bytes that are not UTF-8 are no integer text either, so they are
/// read as bytes.)
pub open spec fn parse_num_spec(s: Seq<u8>) -> ParseOutcome<Span> {
    match (first_index(s, INT_START), first_index(s, END)) {
        (Some(i), Some(e)) => if e < i + 1 {
            ParseOutcome::Aborted
        } else {
            match parse_i64_spec(s.subrange(i + 1, e)) {
                Some(v) => ParseOutcome::Parsed(
                    Span { from: s.subrange(i, e + 1), data: Exact::Num(v as int), hash: None },
                ),
                None => ParseOutcome::Rejected,
            }
        },
        _ => ParseOutcome::Rejected,
    }
}

/// The byte string `N:...` at the start of `s`: `N` is the text before the
/// first `:`, read as a `usize`, and that many bytes must follow.
pub open spec fn parse_bin_spec(s: Seq<u8>) -> Option<Span> {
    match first_index(s, COLON) {
        None => None,
        Some(c) => match parse_usize_spec(s.subrange(0, c)) {
            None => None,
            Some(size) => if size > s.len() - c - 1 {
                None
            } else {
                Some(
                    Span {
                        from: s.subrange(0, c + 1 + size),
                        data: Exact::Bin(s.subrange(c + 1, c + 1 + size)),
                        hash: None,
                    },
                )
            },
        },
    }
}

/// The byte string at the start of `s` as text, where its bytes are UTF-8.
pub open spec fn parse_str_spec(s: Seq<u8>) -> Option<Span> {
    match parse_bin_spec(s) {
        Some(b) => match b.data {
            Exact::Bin(bytes) => if valid_utf8(bytes) {
                Some(Span { from: b.from, data: Exact::Str(decode_utf8(bytes)), hash: None })
            } else {
                None
            },
            _ => None,
        },
        None => None,
    }
}

/// What the parser makes of `s`: the value at its start, chosen by its first
/// byte: `i` an integer, `l` a list, `d` a dictionary, anything else a byte
/// string.
pub open spec fn parse_any_spec(s: Seq<u8>) -> ParseOutcome<Span>
    decreases s.len(), 0int,
{
    if s.len() == 0 {
        ParseOutcome::Rejected
    } else if !is_graphic(s[0]) {
        ParseOutcome::Aborted
    } else if s[0] == INT_START {
        parse_num_spec(s)
    } else if s[0] == LIST_START {
        list_of(s, parse_items_spec(s.subrange(1, s.len() as int), Seq::empty(), 0))
    } else if s[0] == DICT_START {
        pair_of(s, parse_entries_spec(s.subrange(1, s.len() as int), Seq::empty(), 0))
    } else {
        match parse_bin_spec(s) {
            Some(b) => ParseOutcome::Parsed(b),
            None => ParseOutcome::Rejected,
        }
    }
}

/// The items of a list from `t` on, after the items `done` that took `used`
/// bytes: each item is parsed where the span of the one before ends, until
/// an `e`; the end of the input before that `e` is a refusal.
pub open spec fn parse_items_spec(t: Seq<u8>, done: Seq<Span>, used: nat) -> ParseOutcome<
    (Seq<Span>, nat),
>
    decreases t.len(), 1int,
{
    if t.len() == 0 {
        ParseOutcome::Rejected
    } else if t[0] == END {
        ParseOutcome::Parsed((done, used))
    } else {
        match parse_any_spec(t) {
            ParseOutcome::Parsed(item) => {
                let n = item.from.len();
                if 0 < n <= t.len() {
                    parse_items_spec(t.subrange(n as int, t.len() as int), done.push(item), used + n)
                } else {
                    ParseOutcome::Rejected
                }
            },
            ParseOutcome::Rejected => ParseOutcome::Rejected,
            ParseOutcome::Aborted => ParseOutcome::Aborted,
        }
    }
}

/// The entries of a dictionary from `t` on, after the entries `done` that
/// took `used` bytes: a text key, then a value, until an `e`. A key that is
/// already there aborts the parse.
pub open spec fn parse_entries_spec(t: Seq<u8>, done: Seq<(Seq<char>, Span)>, used: nat) -> ParseOutcome<
    (Seq<(Seq<char>, Span)>, nat),
>
    decreases t.len(), 1int,
{
    if t.len() == 0 {
        ParseOutcome::Rejected
    } else if t[0] == END {
        ParseOutcome::Parsed((done, used))
    } else {
        match parse_str_spec(t) {
            None => ParseOutcome::Rejected,
            Some(k) => {
                let n1 = k.from.len();
                if 0 < n1 <= t.len() {
                    let t2 = t.subrange(n1 as int, t.len() as int);
                    match parse_any_spec(t2) {
                        ParseOutcome::Parsed(v) => {
                            let n2 = v.from.len();
                            if 0 < n2 <= t2.len() {
                                let key = k.data->Str_0;
                                if key_index(done, key) is Some {
                                    ParseOutcome::Aborted
                                } else {
                                    parse_entries_spec(
                                        t2.subrange(n2 as int, t2.len() as int),
                                        done.push((key, v)),
                                        used + n1 + n2,
                                    )
                                }
                            } else {
                                ParseOutcome::Rejected
                            }
                        },
                        ParseOutcome::Rejected => ParseOutcome::Rejected,
                        ParseOutcome::Aborted => ParseOutcome::Aborted,
                    }
                } else {
                    ParseOutcome::Rejected
                }
            },
        }
    }
}

/// The list of `s` whose items took `n` bytes after the `l`: its span ends
/// with the `e` after them.
pub open spec fn list_of(s: Seq<u8>, o: ParseOutcome<(Seq<Span>, nat)>) -> ParseOutcome<Span> {
    match o {
        ParseOutcome::Parsed((items, n)) => ParseOutcome::Parsed(
            Span { from: s.subrange(0, n + 2int), data: Exact::List(items), hash: None },
        ),
        ParseOutcome::Rejected => ParseOutcome::Rejected,
        ParseOutcome::Aborted => ParseOutcome::Aborted,
    }
}

/// The dictionary of `s` whose entries took `n` bytes after the `d`.
pub open spec fn pair_of(s: Seq<u8>, o: ParseOutcome<(Seq<(Seq<char>, Span)>, nat)>) -> ParseOutcome<
    Span,
> {
    match o {
        ParseOutcome::Parsed((entries, n)) => ParseOutcome::Parsed(
            Span { from: s.subrange(0, n + 2int), data: Exact::Pair(entries), hash: None },
        ),
        ParseOutcome::Rejected => ParseOutcome::Rejected,
        ParseOutcome::Aborted => ParseOutcome::Aborted,
    }
}

/// A list at the start of `s`, which must start with `l`.
pub open spec fn parse_list_spec(s: Seq<u8>) -> ParseOutcome<Span> {
    if s.len() == 0 || s[0] != LIST_START {
        ParseOutcome::Rejected
    } else {
        list_of(s, parse_items_spec(s.subrange(1, s.len() as int), Seq::empty(), 0))
    }
}

/// A dictionary at the start of `s`, which must start with `d`.
pub open spec fn parse_pair_spec(s: Seq<u8>) -> ParseOutcome<Span> {
    if s.len() == 0 || s[0] != DICT_START {
        ParseOutcome::Rejected
    } else {
        pair_of(s, parse_entries_spec(s.subrange(1, s.len() as int), Seq::empty(), 0))
    }
}

/// The outcome that an executable parsing result stands for.
pub open spec fn parsed_view<'a>(r: Result<Option<BencodeItem<'a>>, ParseAbort>) -> ParseOutcome<Span> {
    match r {
        Ok(Some(item)) => ParseOutcome::Parsed(item@),
        Ok(None) => ParseOutcome::Rejected,
        Err(_) => ParseOutcome::Aborted,
    }
}

/// `item` was read from the start of `s`, and took at least one byte.
pub open spec fn spans_prefix<'a>(item: &BencodeItem<'a>, s: Seq<u8>) -> bool {
    &&& 0 < item.from@.len() <= s.len()
    &&& item.from@ == s.subrange(0, item.from@.len() as int)
}

/// The position of the first `x` in `vec`.
fn try_find(vec: &[u8], x: u8) -> (r: Option<usize>)
    ensures
        match r {
            Some(i) => first_index(vec@, x) == Some(i as int),
            None => first_index(vec@, x) is None,
        },
{
    position(vec, x)
}

fn parse_num<'a>(from: &'a [u8]) -> (r: Result<Option<BencodeItem<'a>>, ParseAbort>)
    ensures
        parsed_view(r) == parse_num_spec(from@),
{
    let ipos = match try_find(from, INT_START) {
        Some(i) => i,
        None => return Ok(None),
    };
    let epos = match try_find(from, END) {
        Some(e) => e,
        None => return Ok(None),
    };
    proof {
        lemma_first_index(from@, INT_START);
        lemma_first_index(from@, END);
        assert(from@.len() == from.len());
    }
    if epos <= ipos {
        return Err(ParseAbort);
    }
    let digits = &from[ipos + 1..epos];
    let data = match parse_i64(digits) {
        Some(d) => d,
        None => return Ok(None),
    };
    Ok(Some(BencodeItem::new_num(&from[ipos..epos + 1], data)))
}

fn parse_bin<'a>(from: &'a [u8]) -> (r: Option<BencodeItem<'a>>)
    ensures
        match r {
            Some(item) => parse_bin_spec(from@) == Some(item@) && item.data is Bin,
            None => parse_bin_spec(from@) is None,
        },
{
    let cpos = match try_find(from, COLON) {
        Some(c) => c,
        None => return None,
    };
    proof {
        lemma_first_index(from@, COLON);
    }
    let size = match parse_usize(&from[0..cpos]) {
        Some(n) => n,
        None => return None,
    };
    if size > from.len() - cpos - 1 {
        return None;
    }
    Some(BencodeItem::new_bin(&from[0..cpos + 1 + size], &from[cpos + 1..cpos + 1 + size]))
}

/// Parses the byte string at the start of `from` as text; `None` where there
/// is none or its bytes are not UTF-8.
pub fn try_parse_str<'a>(from: &'a [u8]) -> (r: Option<BencodeItem<'a>>)
    ensures
        match parse_str_spec(from@) {
            Some(v) => r matches Some(item) && item@ == v,
            None => r is None,
        },
        r matches Some(item) ==> spans_prefix(&item, from@),
{
    let bytes = match parse_bin(from) {
        Some(b) => b,
        None => return None,
    };
    match bytes.data {
        BencodeExact::Bin(x) => {
            let data = match string_from_utf8(vstd::slice::slice_to_vec(x)) {
                Ok(text) => text,
                Err(_) => return None,
            };
            Some(BencodeItem::new_str(bytes.from, data))
        },
        _ => None,
    }
}

fn parse_list<'a>(from: &'a [u8]) -> (r: Result<Option<BencodeItem<'a>>, ParseAbort>)
    ensures
        parsed_view(r) == parse_list_spec(from@),
        r matches Ok(Some(item)) ==> spans_prefix(&item, from@),
    decreases from@.len(), 1int,
{
    if from.len() == 0 || from[0] != LIST_START {
        return Ok(None);
    }
    let ghost body = from@.subrange(1, from@.len() as int);
    let mut size: usize = 1;
    let mut list: Vec<BencodeItem<'a>> = Vec::new();
    let mut part = &from[1..from.len()];
    assert(part@ =~= body);
    assert(spans(list@) =~= Seq::<Span>::empty());
    while size < from.len() && part[0] != END
        invariant
            1 <= size <= from@.len(),
            from@[0] == LIST_START,
            body == from@.subrange(1, from@.len() as int),
            part@ == from@.subrange(size as int, from@.len() as int),
            parse_items_spec(body, Seq::empty(), 0) == parse_items_spec(
                part@,
                spans(list@),
                (size - 1) as nat,
            ),
        decreases from@.len() - size,
    {
        let ghost before = part@;
        let item = match parse_any(part) {
            Ok(Some(i)) => i,
            Ok(None) => {
                assert(parse_items_spec(before, spans(list@), (size - 1) as nat) is Rejected);
                return Ok(None);
            },
            Err(e) => {
                assert(parse_items_spec(before, spans(list@), (size - 1) as nat) is Aborted);
                return Err(e);
            },
        };
        let ghost done = spans(list@);
        size = size + item.from.len();
        part = &from[size..from.len()];
        list.push(item);
        proof {
            assert(part@ =~= before.subrange(item.from@.len() as int, before.len() as int));
            assert(spans(list@) =~= done.push(item@));
        }
    }
    if size >= from.len() {
        return Ok(None);
    }
    let ghost items = spans(list@);
    let r = BencodeItem::new_list(&from[0..size + 1], Box::new(list));
    assert(exact_model(&r.data)->List_0 =~= items);
    Ok(Some(r))
}

fn parse_pair<'a>(from: &'a [u8]) -> (r: Result<Option<BencodeItem<'a>>, ParseAbort>)
    ensures
        parsed_view(r) == parse_pair_spec(from@),
        r matches Ok(Some(item)) ==> spans_prefix(&item, from@),
    decreases from@.len(), 1int,
{
    if from.len() == 0 || from[0] != DICT_START {
        return Ok(None);
    }
    let ghost body = from@.subrange(1, from@.len() as int);
    let mut size: usize = 1;
    let mut pair = Pair::new();
    let mut part = &from[1..from.len()];
    assert(part@ =~= body);
    while size < from.len() && part[0] != END
        invariant
            1 <= size <= from@.len(),
            from@[0] == DICT_START,
            body == from@.subrange(1, from@.len() as int),
            part@ == from@.subrange(size as int, from@.len() as int),
            parse_entries_spec(body, Seq::empty(), 0) == parse_entries_spec(
                part@,
                pair@,
                (size - 1) as nat,
            ),
        decreases from@.len() - size,
    {
        let ghost before = part@;
        let key = match try_parse_str(part) {
            Some(k) => k,
            None => return Ok(None),
        };
        size = size + key.from.len();
        part = &from[size..from.len()];
        let ghost after_key = part@;
        assert(after_key =~= before.subrange(key.from@.len() as int, before.len() as int));
        let val = match parse_any(part) {
            Ok(Some(v)) => v,
            Ok(None) => {
                assert(parse_entries_spec(before, pair@, (size - 1 - key.from@.len()) as nat) is Rejected);
                return Ok(None);
            },
            Err(e) => {
                assert(parse_entries_spec(before, pair@, (size - 1 - key.from@.len()) as nat) is Aborted);
                return Err(e);
            },
        };
        size = size + val.from.len();
        part = &from[size..from.len()];
        assert(part@ =~= after_key.subrange(val.from@.len() as int, after_key.len() as int));
        let k = match key.data {
            BencodeExact::Str(text) => text,
            _ => return Ok(None),
        };
        let ghost done = pair@;
        if let Some(_) = pair.insert(k, val) {
            assert(key_index(done, k@) is Some);
            assert(parse_entries_spec(before, done, (size - 1 - key.from@.len() - val.from@.len()) as nat) is Aborted);
            return Err(ParseAbort);
        }
    }
    if size >= from.len() {
        return Ok(None);
    }
    Ok(Some(BencodeItem::new_pair(&from[0..size + 1], Box::new(pair))))
}

fn parse_any<'a>(from: &'a [u8]) -> (r: Result<Option<BencodeItem<'a>>, ParseAbort>)
    ensures
        parsed_view(r) == parse_any_spec(from@),
        r matches Ok(Some(item)) ==> spans_prefix(&item, from@),
    decreases from@.len(), 2int,
{
    if from.len() == 0 {
        return Ok(None);
    }
    let byte = from[0];
    if !(33 <= byte && byte <= 126) {
        return Err(ParseAbort);
    }
    if byte == INT_START {
        proof {
            assert(is_first(from@, INT_START, 0));
            lemma_first_index_is(from@, INT_START, 0);
        }
        parse_num(from)
    } else if byte == LIST_START {
        parse_list(from)
    } else if byte == DICT_START {
        parse_pair(from)
    } else {
        Ok(parse_bin(from))
    }
}

/// Parses the integer between the first `i` and the first `e` of `from`.
pub fn try_parse_num<'a>(from: &'a [u8]) -> (r: Option<BencodeItem<'a>>)
    requires
        !(parse_num_spec(from@) is Aborted),
    ensures
        match parse_num_spec(from@) {
            ParseOutcome::Parsed(v) => r matches Some(item) && item@ == v,
            _ => r is None,
        },
        from@.len() > 0 && from@[0] == INT_START ==> (r matches Some(item) ==> spans_prefix(
            &item,
            from@,
        )),
{
    proof {
        if from@.len() > 0 && from@[0] == INT_START {
            assert(is_first(from@, INT_START, 0));
            lemma_first_index_is(from@, INT_START, 0);
        }
    }
    match parse_num(from) {
        Ok(r) => r,
        Err(_) => None,
    }
}

/// Parses the list at the start of `from`.
pub fn try_parse_list<'a>(from: &'a [u8]) -> (r: Option<BencodeItem<'a>>)
    requires
        !(parse_list_spec(from@) is Aborted),
    ensures
        match parse_list_spec(from@) {
            ParseOutcome::Parsed(v) => r matches Some(item) && item@ == v,
            _ => r is None,
        },
        r matches Some(item) ==> spans_prefix(&item, from@),
{
    match parse_list(from) {
        Ok(r) => r,
        Err(_) => None,
    }
}

/// Parses the dictionary at the start of `from`.
pub fn try_parse_pair<'a>(from: &'a [u8]) -> (r: Option<BencodeItem<'a>>)
    requires
        !(parse_pair_spec(from@) is Aborted),
    ensures
        match parse_pair_spec(from@) {
            ParseOutcome::Parsed(v) => r matches Some(item) && item@ == v,
            _ => r is None,
        },
        r matches Some(item) ==> spans_prefix(&item, from@),
{
    match parse_pair(from) {
        Ok(r) => r,
        Err(_) => None,
    }
}

impl<'a> BencodeItem<'a> {
    pub fn new_num(from: &'a [u8], x: i64) -> (r: BencodeItem<'a>)
        ensures
            r.from == from,
            r.data == BencodeExact::Num(x),
            r.hash is None,
    {
        BencodeItem { from: from, data: BencodeExact::Num(x), hash: None }
    }

    pub fn new_bin(from: &'a [u8], x: &'a Bytes) -> (r: BencodeItem<'a>)
        ensures
            r.from == from,
            r.data == BencodeExact::Bin(x),
            r.hash is None,
    {
        BencodeItem { from: from, data: BencodeExact::Bin(x), hash: None }
    }

    pub fn new_str(from: &'a [u8], x: String) -> (r: BencodeItem<'a>)
        ensures
            r.from == from,
            r.data == BencodeExact::Str(x),
            r.hash is None,
    {
        BencodeItem { from: from, data: BencodeExact::Str(x), hash: None }
    }

    pub fn new_list(from: &'a [u8], x: Box<List<'a>>) -> (r: BencodeItem<'a>)
        ensures
            r.from == from,
            r.data == BencodeExact::List(x),
            r.hash is None,
    {
        BencodeItem { from: from, data: BencodeExact::List(x), hash: None }
    }

    pub fn new_pair(from: &'a [u8], x: Box<Pair<'a>>) -> (r: BencodeItem<'a>)
        ensures
            r.from == from,
            r.data == BencodeExact::Pair(x),
            r.hash is None,
    {
        BencodeItem { from: from, data: BencodeExact::Pair(x), hash: None }
    }

    /// The integer of an integer value.
    pub fn to_num(&self) -> (r: Option<i64>)
        ensures
            r == (match self.data {
                BencodeExact::Num(x) => Some(x),
                _ => None,
            }),
    {
        if let BencodeExact::Num(x) = self.data {
            return Some(x);
        }
        None
    }

    /// The text of a text value.
    pub fn to_str(&self) -> (r: Option<&String>)
        ensures
            match &self.data {
                BencodeExact::Str(x) => r == Some(x),
                _ => r is None,
            },
    {
        if let BencodeExact::Str(x) = &self.data {
            return Some(x);
        }
        None
    }

    /// The bytes of a byte string value.
    pub fn to_bin(&self) -> (r: Option<&Bytes>)
        ensures
            match self.data {
                BencodeExact::Bin(x) => r == Some(x),
                _ => r is None,
            },
    {
        if let BencodeExact::Bin(x) = self.data {
            return Some(x);
        }
        None
    }

    /// The items of a list value.
    pub fn to_list(&self) -> (r: Option<&Box<List<'a>>>)
        ensures
            match &self.data {
                BencodeExact::List(x) => r == Some(x),
                _ => r is None,
            },
    {
        if let BencodeExact::List(x) = &self.data {
            return Some(x);
        }
        None
    }

    /// The entries of a dictionary value.
    pub fn to_pair(&self) -> (r: Option<&Box<Pair<'a>>>)
        ensures
            match &self.data {
                BencodeExact::Pair(x) => r == Some(x),
                _ => r is None,
            },
    {
        if let BencodeExact::Pair(x) = &self.data {
            return Some(x);
        }
        None
    }

    /// Parses the value at the start of `from`; `None` where there is none.
    /// The value keeps the bytes it was read from.
    pub fn try_parse(from: &'a [u8]) -> (r: Option<BencodeItem<'a>>)
        requires
            !(parse_any_spec(from@) is Aborted),
        ensures
            match parse_any_spec(from@) {
                ParseOutcome::Parsed(v) => r matches Some(item) && item@ == v && spans_prefix(&item, from@),
                _ => r is None,
            },
    {
        match parse_any(from) {
            Ok(r) => r,
            Err(_) => None,
        }
    }

    /// Parses the value at the start of `from`, as `try_parse` does, and tells
    /// the inputs on which parsing aborts (those that `try_parse` leaves out).
    pub fn try_parse_checked(from: &'a [u8]) -> (r: Result<Option<BencodeItem<'a>>, ParseAbort>)
        ensures
            parsed_view(r) == parse_any_spec(from@),
            r matches Ok(Some(item)) ==> spans_prefix(&item, from@),
    {
        parse_any(from)
    }
}

impl<'a> BencodeParser<'a> {
    /// A parser over `from` that has parsed nothing yet.
    pub fn new(from: &'a [u8]) -> (r: Self)
        ensures
            r.from == from,
            r.data is None,
    {
        BencodeParser { from: from, data: None }
    }
}

} // verus!
