//! Reading a torrent's metainfo from its bencoded dictionary.
use sha1::Digest;
use sha1::Sha1;
use std::borrow::Cow;
use vstd::prelude::*;
use vstd::utf8::{decode_utf8, valid_utf8};
use crate::bencode::encode::{encoding, items_view, entries_view, lemma_view_list, lemma_view_pair};
use crate::bencode::types::{Bencoded, BencodeEncoder, BencodeItem, Bin, List, Pair, TryAsRef};
use crate::outcome::{Outcome, Overrun};
use crate::scan::str_eq;
use crate::torrent::types::{Sha1Hash, Torrent, TorrentFile, TorrentModel, tiers_view, strings_view, files_view, hashes_view};
use crate::utf8::string_from_utf8;

verus! {

/// The value of the first entry of `p` with the key `key`.
pub open spec fn lookup(p: Seq<(Seq<char>, Bencoded)>, key: Seq<char>) -> Option<Bencoded>
    decreases p.len(),
{
    if p.len() == 0 {
        None
    } else if p[0].0 == key {
        Some(p[0].1)
    } else {
        lookup(p.drop_first(), key)
    }
}

/// The text that a value holds: a text value, or a byte string of UTF-8.
pub open spec fn text_of(v: Bencoded) -> Option<Seq<char>> {
    match v {
        Bencoded::Str(s) => Some(s),
        Bencoded::Bin(b) => if valid_utf8(b) {
            Some(decode_utf8(b))
        } else {
            None
        },
        _ => None,
    }
}

/// The text of the entry with the key `key`.
pub open spec fn text_by_key(p: Seq<(Seq<char>, Bencoded)>, key: Seq<char>) -> Option<Seq<char>> {
    match lookup(p, key) {
        Some(v) => text_of(v),
        None => None,
    }
}

/// The SHA-1 digest of some bytes.
pub uninterp spec fn sha1_digest(data: Seq<u8>) -> Seq<u8>;

/// `Sha1::digest` of the sha1 crate, as a 20-byte array. Trusted: the digest
/// is the named function `sha1_digest` of the bytes hashed.
#[verifier::external_body]
fn sha1(data: &[u8]) -> (r: Sha1Hash)
    ensures
        r@ == sha1_digest(data@),
{
    Sha1::digest(data).into()
}

fn owned_str_from_bin(x: Vec<u8>) -> (r: Option<String>)
    ensures
        match r {
            Some(s) => valid_utf8(x@) && s@ == decode_utf8(x@),
            None => !valid_utf8(x@),
        },
{
    match string_from_utf8(x) {
        Ok(s) => Some(s),
        Err(_) => None,
    }
}

fn owned_str_from_item(x: &BencodeItem) -> (r: Option<String>)
    ensures
        match r {
            Some(s) => text_of(x@) == Some(s@),
            None => text_of(x@) is None,
        },
{
    match x {
        BencodeItem::Bin(x) => owned_str_from_bin(vstd::slice::slice_to_vec(x.as_slice())),
        BencodeItem::Str(x) => Some(x.clone()),
        _ => None,
    }
}

/// The value of the first entry with the key `key`.
pub fn get_by_key<'a>(key: &str, root: &'a Pair) -> (r: Option<&'a BencodeItem>)
    ensures
        match r {
            Some(x) => lookup(entries_view(root@), key@) == Some(x@),
            None => lookup(entries_view(root@), key@) is None,
        },
{
    let ghost p = entries_view(root@);
    let mut i: usize = 0;
    assert(p.subrange(0, p.len() as int) =~= p);
    while i < root.len()
        invariant
            i <= root@.len(),
            p == entries_view(root@),
            lookup(p, key@) == lookup(p.subrange(i as int, p.len() as int), key@),
        decreases root@.len() - i,
    {
        let ghost q = p.subrange(i as int, p.len() as int);
        assert(q.drop_first() =~= p.subrange(i + 1, p.len() as int));
        if str_eq(root[i].0.as_str(), key) {
            return Some(&root[i].1);
        }
        i = i + 1;
    }
    None
}

/// The integer of the entry with the key `key`.
pub fn get_num_by_key<'a>(key: &str, root: &'a Pair) -> (r: Option<&'a i64>)
    ensures
        match lookup(entries_view(root@), key@) {
            Some(Bencoded::Num(n)) => r matches Some(x) && *x == n,
            _ => r is None,
        },
{
    let item = match get_by_key(key, root) {
        Some(item) => item,
        None => return None,
    };
    match item {
        BencodeItem::Num(x) => Some(x),
        _ => None,
    }
}

/// The bytes of the entry with the key `key`.
pub fn get_bin_by_key<'a>(key: &str, root: &'a Pair) -> (r: Option<&'a Bin>)
    ensures
        match lookup(entries_view(root@), key@) {
            Some(Bencoded::Bin(b)) => r matches Some(x) && x@ == b,
            _ => r is None,
        },
{
    let item = match get_by_key(key, root) {
        Some(item) => item,
        None => return None,
    };
    match item {
        BencodeItem::Bin(x) => Some(x),
        _ => None,
    }
}

/// The text of the entry with the key `key`: borrowed from a text value,
/// decoded from a byte string of UTF-8.
pub fn get_str_by_key<'a>(key: &str, root: &'a Pair) -> (r: Option<Cow<'a, str>>)
    ensures
        match text_by_key(entries_view(root@), key@) {
            Some(t) => r matches Some(x) && x@ == t,
            None => r is None,
        },
{
    let item = match get_by_key(key, root) {
        Some(item) => item,
        None => return None,
    };
    match item {
        BencodeItem::Str(x) => Some(Cow::Borrowed(x.as_str())),
        BencodeItem::Bin(x) => match owned_str_from_bin(vstd::slice::slice_to_vec(x.as_slice())) {
            Some(s) => Some(Cow::Owned(s)),
            None => None,
        },
        _ => None,
    }
}

/// The items of the list of the entry with the key `key`.
pub fn get_list_by_key<'a>(key: &str, root: &'a Pair) -> (r: Option<&'a List>)
    ensures
        match lookup(entries_view(root@), key@) {
            Some(Bencoded::List(l)) => r matches Some(x) && items_view(x@) == l,
            _ => r is None,
        },
{
    let item = match get_by_key(key, root) {
        Some(item) => item,
        None => return None,
    };
    match item {
        BencodeItem::List(x) => {
            proof {
                lemma_view_list(*x);
            }
            Some(x)
        },
        _ => None,
    }
}

/// The entries of the dictionary of the entry with the key `key`.
pub fn get_pair_by_key<'a>(key: &str, root: &'a Pair) -> (r: Option<&'a Pair>)
    ensures
        match lookup(entries_view(root@), key@) {
            Some(Bencoded::Pair(p)) => r matches Some(x) && entries_view(x@) == p,
            _ => r is None,
        },
{
    let item = match get_by_key(key, root) {
        Some(item) => item,
        None => return None,
    };
    match item {
        BencodeItem::Pair(x) => {
            proof {
                lemma_view_pair(*x);
            }
            Some(x)
        },
        _ => None,
    }
}

/// The text of the entry with the key `key`, as a `String`.
pub fn get_owned_str_by_key(key: &str, root: &Pair) -> (r: Option<String>)
    ensures
        match text_by_key(entries_view(root@), key@) {
            Some(t) => r matches Some(x) && x@ == t,
            None => r is None,
        },
{
    let cow = match get_str_by_key(key, root) {
        Some(c) => c,
        None => return None,
    };
    match cow {
        Cow::Owned(x) => Some(x),
        Cow::Borrowed(x) => Some(x.to_owned()),
    }
}

impl TorrentFile {
    pub fn new(path: String, size: i64) -> (r: TorrentFile)
        ensures
            r.path == path,
            r.size == size,
    {
        TorrentFile { path: path, size: size }
    }
}

} // verus!
verus! {

/// The texts of a list whose items all hold text.
pub open spec fn tier_texts(t: Bencoded) -> Option<Seq<Seq<char>>> {
    match t {
        Bencoded::List(items) => if forall|j: int| 0 <= j < items.len() ==> text_of(#[trigger] items[j]) is Some {
            Some(Seq::new(items.len(), |j: int| text_of(items[j])->0))
        } else {
            None
        },
        _ => None,
    }
}

/// The tiers of trackers in `announce-list`: a list of lists of texts.
pub open spec fn announce_list_spec(p: Seq<(Seq<char>, Bencoded)>) -> Option<Seq<Seq<Seq<char>>>> {
    match lookup(p, "announce-list"@) {
        Some(Bencoded::List(tiers)) => if forall|i: int| 0 <= i < tiers.len() ==> tier_texts(#[trigger] tiers[i]) is Some {
            Some(Seq::new(tiers.len(), |i: int| tier_texts(tiers[i])->0))
        } else {
            None
        },
        _ => None,
    }
}

/// A file of a multi-file torrent: a dictionary whose `path` is a list that
/// starts with a text, and whose `length` is an integer.
pub open spec fn file_of(item: Bencoded) -> Option<(Seq<char>, int)> {
    match item {
        Bencoded::Pair(ip) => match (lookup(ip, "path"@), lookup(ip, "length"@)) {
            (Some(Bencoded::List(pl)), Some(Bencoded::Num(n))) => if pl.len() > 0 {
                match text_of(pl[0]) {
                    Some(t) => Some((t, n)),
                    None => None,
                }
            } else {
                None
            },
            _ => None,
        },
        _ => None,
    }
}

/// The files of the `info` dictionary: each item of its `files` list where
/// there is one, else the single file of its `name` and `length`.
pub open spec fn files_spec(p: Seq<(Seq<char>, Bencoded)>) -> Option<Seq<(Seq<char>, int)>> {
    match lookup(p, "info"@) {
        Some(Bencoded::Pair(info)) => match lookup(info, "files"@) {
            Some(Bencoded::List(l)) => if forall|i: int| 0 <= i < l.len() ==> file_of(#[trigger] l[i]) is Some {
                Some(Seq::new(l.len(), |i: int| file_of(l[i])->0))
            } else {
                None
            },
            _ => match (text_by_key(info, "name"@), lookup(info, "length"@)) {
                (Some(name), Some(Bencoded::Num(n))) => Some(seq![(name, n)]),
                _ => None,
            },
        },
        _ => None,
    }
}

/// The bytes of `pieces` in the `info` dictionary.
pub open spec fn pieces_bytes(p: Seq<(Seq<char>, Bencoded)>) -> Option<Seq<u8>> {
    match lookup(p, "info"@) {
        Some(Bencoded::Pair(info)) => match lookup(info, "pieces"@) {
            Some(Bencoded::Bin(b)) => Some(b),
            _ => None,
        },
        _ => None,
    }
}

/// The piece hashes: `pieces` cut in runs of 20 bytes.
pub open spec fn pieces_spec(p: Seq<(Seq<char>, Bencoded)>) -> Option<Seq<Seq<u8>>> {
    match pieces_bytes(p) {
        Some(b) => Some(Seq::new(b.len() / 20, |i: int| b.subrange(20 * i, 20 * i + 20))),
        None => None,
    }
}

/// `piece length` in the `info` dictionary.
pub open spec fn piece_size_spec(p: Seq<(Seq<char>, Bencoded)>) -> Option<int> {
    match lookup(p, "info"@) {
        Some(Bencoded::Pair(info)) => match lookup(info, "piece length"@) {
            Some(Bencoded::Num(n)) => Some(n),
            _ => None,
        },
        _ => None,
    }
}

/// The SHA-1 digest of the bencoding of the `info` value.
pub open spec fn info_hash_spec(p: Seq<(Seq<char>, Bencoded)>) -> Option<Seq<u8>> {
    match lookup(p, "info"@) {
        Some(v) => Some(sha1_digest(encoding(v))),
        None => None,
    }
}

/// What `Torrent::new` makes of a value: the root must be a dictionary, and
/// each part is read in turn (announce, announce list, files, pieces, piece
/// size, info hash). Where `pieces` is reached and its length is no
/// multiple of 20, the reading stops: `Overrun`.
pub open spec fn torrent_spec(root: Bencoded) -> Outcome<TorrentModel> {
    match root {
        Bencoded::Pair(p) => {
            if text_by_key(p, "announce"@) is None || announce_list_spec(p) is None
                || files_spec(p) is None {
                Outcome::Failure
            } else if pieces_bytes(p) matches Some(b) && b.len() % 20 != 0 {
                Outcome::Overrun
            } else if pieces_spec(p) is None || piece_size_spec(p) is None || info_hash_spec(
                p,
            ) is None {
                Outcome::Failure
            } else {
                Outcome::Success(
                    TorrentModel {
                        announce: text_by_key(p, "announce"@)->0,
                        announce_list: announce_list_spec(p)->0,
                        files: files_spec(p)->0,
                        pieces: pieces_spec(p)->0,
                        piece_size: piece_size_spec(p)->0,
                        info_hash: info_hash_spec(p)->0,
                    },
                )
            }
        },
        _ => Outcome::Failure,
    }
}

impl Torrent {
    fn get_announce(root: &Pair) -> (r: Option<String>)
        ensures
            match text_by_key(entries_view(root@), "announce"@) {
                Some(t) => r matches Some(x) && x@ == t,
                None => r is None,
            },
    {
        get_owned_str_by_key("announce", root)
    }

    fn get_announce_list(root: &Pair) -> (r: Option<Vec<Vec<String>>>)
        ensures
            match announce_list_spec(entries_view(root@)) {
                Some(l) => r matches Some(v) && tiers_view(v@) == l,
                None => r is None,
            },
    {
        let mut vec: Vec<Vec<String>> = vec![];
        let branch = match get_list_by_key("announce-list", root) {
            Some(b) => b,
            None => return None,
        };
        let ghost tiers = items_view(branch@);
        let mut idx: usize = 0;
        while idx < branch.len()
            invariant
                idx <= branch@.len(),
                tiers == items_view(branch@),
                lookup(entries_view(root@), "announce-list"@) == Some(Bencoded::List(tiers)),
                vec@.len() == idx,
                forall|i: int| 0 <= i < idx ==> tier_texts(#[trigger] tiers[i]) == Some(strings_view(vec@[i]@)),
            decreases branch@.len() - idx,
        {
            let extv = &branch[idx];
            let intv: Option<&Vec<BencodeItem>> = extv.try_as_ref();
            let intv = match intv {
                Some(v) => v,
                None => return None,
            };
            proof {
                lemma_view_list(*intv);
            }
            let ghost items = items_view(intv@);
            assert(tiers[idx as int] == Bencoded::List(items));
            let mut tier: Vec<String> = Vec::new();
            let mut j: usize = 0;
            while j < intv.len()
                invariant
                    j <= intv@.len(),
                    idx < branch@.len(),
                    tiers == items_view(branch@),
                    tiers[idx as int] == Bencoded::List(items),
                    lookup(entries_view(root@), "announce-list"@) == Some(Bencoded::List(tiers)),
                    items == items_view(intv@),
                    tier@.len() == j,
                    forall|k: int| 0 <= k < j ==> text_of(#[trigger] items[k]) == Some(tier@[k]@),
                decreases intv@.len() - j,
            {
                let owned = owned_str_from_item(&intv[j]);
                match owned {
                    Some(o) => tier.push(o),
                    None => {
                        assert(text_of(items[j as int]) is None);
                        assert(tier_texts(tiers[idx as int]) is None);
                        return None;
                    },
                }
                j = j + 1;
            }
            proof {
                assert(Seq::new(items.len(), |k: int| text_of(items[k])->0) =~= strings_view(tier@));
            }
            vec.push(tier);
            idx = idx + 1;
        }
        proof {
            assert(Seq::new(tiers.len(), |i: int| tier_texts(tiers[i])->0) =~= tiers_view(vec@));
        }
        Some(vec)
    }

    fn get_piece_size(root: &Pair) -> (r: Option<i64>)
        ensures
            match piece_size_spec(entries_view(root@)) {
                Some(n) => r matches Some(v) && v as int == n,
                None => r is None,
            },
    {
        let x = match get_pair_by_key("info", root) {
            Some(x) => x,
            None => return None,
        };
        match get_num_by_key("piece length", x) {
            Some(n) => Some(*n),
            None => None,
        }
    }

    fn get_files(root: &Pair) -> (r: Option<Vec<TorrentFile>>)
        ensures
            match files_spec(entries_view(root@)) {
                Some(f) => r matches Some(v) && files_view(v@) == f,
                None => r is None,
            },
    {
        let mut vec: Vec<TorrentFile> = vec![];
        let info = match get_pair_by_key("info", root) {
            Some(i) => i,
            None => return None,
        };
        let list = get_list_by_key("files", info);
        match list {
            None => {
                let path = match get_owned_str_by_key("name", info) {
                    Some(p) => p,
                    None => return None,
                };
                let size = match get_num_by_key("length", info) {
                    Some(n) => *n,
                    None => return None,
                };
                vec.push(TorrentFile { path: path, size: size });
                proof {
                    assert(files_view(vec@) =~= files_spec(entries_view(root@))->0);
                }
            },
            Some(list) => {
                let ghost l = items_view(list@);
                let ghost info_model = entries_view(info@);
                let mut i: usize = 0;
                while i < list.len()
                    invariant
                        i <= list@.len(),
                        l == items_view(list@),
                        lookup(entries_view(root@), "info"@) == Some(Bencoded::Pair(info_model)),
                        lookup(info_model, "files"@) == Some(Bencoded::List(l)),
                        vec@.len() == i,
                        forall|k: int| 0 <= k < i ==> file_of(#[trigger] l[k]) == Some(
                            (vec@[k].path@, vec@[k].size as int),
                        ),
                    decreases list@.len() - i,
                {
                    let item: Option<&Pair> = list[i].try_as_ref();
                    let item = match item {
                        Some(p) => p,
                        None => {
                            assert(file_of(l[i as int]) is None);
                            return None;
                        },
                    };
                    proof {
                        lemma_view_pair(*item);
                    }
                    let paths = match get_list_by_key("path", item) {
                        Some(p) => p,
                        None => {
                            assert(file_of(l[i as int]) is None);
                            return None;
                        },
                    };
                    let first = match paths.as_slice().first() {
                        Some(f) => f,
                        None => {
                            assert(file_of(l[i as int]) is None);
                            return None;
                        },
                    };
                    let path = match owned_str_from_item(first) {
                        Some(p) => p,
                        None => {
                            assert(file_of(l[i as int]) is None);
                            return None;
                        },
                    };
                    let size = match get_num_by_key("length", item) {
                        Some(n) => *n,
                        None => {
                            assert(file_of(l[i as int]) is None);
                            return None;
                        },
                    };
                    vec.push(TorrentFile { path: path.clone(), size: size });
                    i = i + 1;
                }
                proof {
                    assert(Seq::new(l.len(), |k: int| file_of(l[k])->0) =~= files_view(vec@));
                }
            },
        };
        Some(vec)
    }

    fn get_pieces(root: &Pair) -> (r: Option<Vec<Sha1Hash>>)
        requires
            pieces_bytes(entries_view(root@)) matches Some(b) ==> b.len() % 20 == 0,
        ensures
            match pieces_spec(entries_view(root@)) {
                Some(h) => r matches Some(v) && hashes_view(v@) == h,
                None => r is None,
            },
    {
        let x = match get_pair_by_key("info", root) {
            Some(x) => x,
            None => return None,
        };
        let x = match get_bin_by_key("pieces", x) {
            Some(x) => x,
            None => return None,
        };
        let mut vec: Vec<Sha1Hash> = Vec::with_capacity(x.len() / 20);
        let mut start: usize = 0;
        while start < x.len()
            invariant
                start % 20 == 0,
                start <= x@.len(),
                x@.len() % 20 == 0,
                vec@.len() == start / 20,
                forall|k: int| 0 <= k < vec@.len() ==> (#[trigger] vec@[k])@ == x@.subrange(20 * k, 20 * k + 20),
            decreases x@.len() - start,
        {
            assert(start + 20 <= x@.len()) by (nonlinear_arith)
                requires
                    start % 20 == 0,
                    x@.len() % 20 == 0,
                    start < x@.len(),
            ;
            let mut buf = [0u8; 20];
            let mut j: usize = 0;
            while j < 20
                invariant
                    j <= 20,
                    start + 20 <= x.len(),
                    forall|k: int| 0 <= k < j ==> buf@[k] == x@[start + k],
                decreases 20 - j,
            {
                buf[j] = x[start + j];
                j = j + 1;
            }
            proof {
                assert(buf@ =~= x@.subrange(start as int, start + 20));
            }
            vec.push(buf);
            start = start + 20;
        }
        proof {
            assert(Seq::new(x@.len() / 20, |i: int| x@.subrange(20 * i, 20 * i + 20)) =~= hashes_view(vec@));
        }
        Some(vec)
    }

    fn get_info_hash(root: &Pair) -> (r: Option<Sha1Hash>)
        ensures
            match info_hash_spec(entries_view(root@)) {
                Some(h) => r matches Some(x) && x@ == h,
                None => r is None,
            },
    {
        let info = match get_by_key("info", root) {
            Some(i) => i,
            None => return None,
        };
        let data = BencodeEncoder::encode(info);
        Some(sha1(data.as_slice()))
    }
}

impl Torrent {
    /// Where `info` holds a byte string `pieces`, its length is a multiple
    /// of 20.
    fn pieces_fit(root: &Pair) -> (r: bool)
        ensures
            r <==> !(pieces_bytes(entries_view(root@)) matches Some(b) && b.len() % 20 != 0),
    {
        let info = match get_pair_by_key("info", root) {
            Some(x) => x,
            None => return true,
        };
        match get_bin_by_key("pieces", info) {
            Some(b) => b.len() % 20 == 0,
            None => true,
        }
    }

    /// Reads a torrent's metainfo from its bencoded dictionary, as
    /// `torrent_spec` says, and tells the values on which `new` would stop
    /// on its assertion.
    pub fn try_new(root: &BencodeItem) -> (r: Result<Option<Self>, Overrun>)
        ensures
            match torrent_spec(root@) {
                Outcome::Success(t) => r matches Ok(Some(x)) && x@ == t,
                Outcome::Failure => r matches Ok(None),
                Outcome::Overrun => r is Err,
            },
    {
        let root: Option<&Pair> = root.try_as_ref();
        let root = match root {
            Some(r) => r,
            None => return Ok(None),
        };
        proof {
            lemma_view_pair(*root);
        }
        let announce = match Self::get_announce(root) {
            Some(a) => a,
            None => return Ok(None),
        };
        let announce_list = match Self::get_announce_list(root) {
            Some(a) => a,
            None => return Ok(None),
        };
        let files = match Self::get_files(root) {
            Some(f) => f,
            None => return Ok(None),
        };
        if !Self::pieces_fit(root) {
            return Err(Overrun);
        }
        let pieces = match Self::get_pieces(root) {
            Some(p) => p,
            None => return Ok(None),
        };
        let piece_size = match Self::get_piece_size(root) {
            Some(p) => p,
            None => return Ok(None),
        };
        let info_hash = match Self::get_info_hash(root) {
            Some(h) => h,
            None => return Ok(None),
        };
        Ok(Some(Self { announce, announce_list, files, pieces, piece_size, info_hash }))
    }

    /// Reads a torrent's metainfo from its bencoded dictionary, as
    /// `torrent_spec` says; `None` where a part is missing or malformed.
    pub fn new(root: &BencodeItem) -> (r: Option<Self>)
        requires
            !(torrent_spec(root@) is Overrun),
        ensures
            match torrent_spec(root@) {
                Outcome::Success(t) => r matches Some(x) && x@ == t,
                _ => r is None,
            },
    {
        match Self::try_new(root) {
            Ok(r) => r,
            Err(_) => None,
        }
    }
}

/// The piece hashes of a torrent are its `pieces` bytes cut in runs of 20,
/// in order: the `i`-th hash is bytes `20 * i` to `20 * i + 20`, and the
/// hashes together cover all the bytes.
pub proof fn lemma_torrent_pieces(
    p: Seq<(Seq<char>, Bencoded)>,
    info: Seq<(Seq<char>, Bencoded)>,
    b: Seq<u8>,
)
    requires
        lookup(p, "info"@) == Some(Bencoded::Pair(info)),
        lookup(info, "pieces"@) == Some(Bencoded::Bin(b)),
        torrent_spec(Bencoded::Pair(p)) is Success,
    ensures
        ({
            let t = torrent_spec(Bencoded::Pair(p))->Success_0;
            &&& t.pieces.len() * 20 == b.len()
            &&& forall|i: int|
                0 <= i < t.pieces.len() ==> #[trigger] t.pieces[i] == b.subrange(20 * i, 20 * i + 20)
        }),
{
    let t = torrent_spec(Bencoded::Pair(p))->Success_0;
    assert(pieces_bytes(p) == Some(b));
    assert(b.len() % 20 == 0);
    assert(t.pieces.len() == b.len() / 20);
}

/// The other parts of a torrent, as its dictionary holds them: the text of
/// `announce`, the `piece length` of `info`, and the SHA-1 digest of the
/// bencoding of `info`.
pub proof fn lemma_torrent_parts(p: Seq<(Seq<char>, Bencoded)>, info: Seq<(Seq<char>, Bencoded)>)
    requires
        lookup(p, "info"@) == Some(Bencoded::Pair(info)),
        torrent_spec(Bencoded::Pair(p)) is Success,
    ensures
        ({
            let t = torrent_spec(Bencoded::Pair(p))->Success_0;
            &&& Some(t.announce) == text_of(lookup(p, "announce"@)->0)
            &&& lookup(info, "piece length"@) == Some(Bencoded::Num(t.piece_size))
            &&& t.info_hash == sha1_digest(encoding(Bencoded::Pair(info)))
        }),
{
}

/// The files of a torrent with a `files` list in `info`: one file for each
/// item of the list, in order, each with the first text of its `path` and
/// its `length`.
pub proof fn lemma_torrent_files(
    p: Seq<(Seq<char>, Bencoded)>,
    info: Seq<(Seq<char>, Bencoded)>,
    l: Seq<Bencoded>,
)
    requires
        lookup(p, "info"@) == Some(Bencoded::Pair(info)),
        lookup(info, "files"@) == Some(Bencoded::List(l)),
        torrent_spec(Bencoded::Pair(p)) is Success,
    ensures
        ({
            let t = torrent_spec(Bencoded::Pair(p))->Success_0;
            &&& t.files.len() == l.len()
            &&& forall|i: int|
                0 <= i < l.len() ==> (#[trigger] l[i] matches Bencoded::Pair(ip) && {
                    &&& lookup(ip, "path"@) matches Some(Bencoded::List(pl))
                    &&& pl.len() > 0
                    &&& text_of(pl[0]) == Some(t.files[i].0)
                    &&& lookup(ip, "length"@) == Some(Bencoded::Num(t.files[i].1))
                })
        }),
{
    let t = torrent_spec(Bencoded::Pair(p))->Success_0;
    assert forall|i: int| 0 <= i < l.len() implies (#[trigger] l[i] matches Bencoded::Pair(ip) && {
        &&& lookup(ip, "path"@) matches Some(Bencoded::List(pl))
        &&& pl.len() > 0
        &&& text_of(pl[0]) == Some(t.files[i].0)
        &&& lookup(ip, "length"@) == Some(Bencoded::Num(t.files[i].1))
    }) by {
        assert(file_of(l[i]) is Some);
        assert(t.files[i] == file_of(l[i])->0);
    }
}

/// The files of a torrent without a `files` list: the one file of the text
/// of `name` and the integer `length` of `info`.
pub proof fn lemma_torrent_single_file(p: Seq<(Seq<char>, Bencoded)>, info: Seq<(Seq<char>, Bencoded)>)
    requires
        lookup(p, "info"@) == Some(Bencoded::Pair(info)),
        !(lookup(info, "files"@) matches Some(Bencoded::List(_))),
        torrent_spec(Bencoded::Pair(p)) is Success,
    ensures
        ({
            let t = torrent_spec(Bencoded::Pair(p))->Success_0;
            &&& t.files.len() == 1
            &&& text_by_key(info, "name"@) == Some(t.files[0].0)
            &&& lookup(info, "length"@) == Some(Bencoded::Num(t.files[0].1))
        }),
{
}

/// The trackers of a torrent: one tier for each list in `announce-list`, in
/// order, each with the texts of that list, in order.
pub proof fn lemma_torrent_announce_list(p: Seq<(Seq<char>, Bencoded)>, tiers: Seq<Bencoded>)
    requires
        lookup(p, "announce-list"@) == Some(Bencoded::List(tiers)),
        torrent_spec(Bencoded::Pair(p)) is Success,
    ensures
        ({
            let t = torrent_spec(Bencoded::Pair(p))->Success_0;
            &&& t.announce_list.len() == tiers.len()
            &&& forall|i: int|
                0 <= i < tiers.len() ==> (#[trigger] tiers[i] matches Bencoded::List(items) && {
                    &&& t.announce_list[i].len() == items.len()
                    &&& forall|j: int|
                        0 <= j < items.len() ==> text_of(#[trigger] items[j]) == Some(
                            t.announce_list[i][j],
                        )
                })
        }),
{
    let t = torrent_spec(Bencoded::Pair(p))->Success_0;
    assert forall|i: int| 0 <= i < tiers.len() implies (#[trigger] tiers[i] matches Bencoded::List(items) && {
        &&& t.announce_list[i].len() == items.len()
        &&& forall|j: int|
            0 <= j < items.len() ==> text_of(#[trigger] items[j]) == Some(t.announce_list[i][j])
    }) by {
        assert(tier_texts(tiers[i]) is Some);
        assert(t.announce_list[i] == tier_texts(tiers[i])->0);
        if let Bencoded::List(items) = tiers[i] {
            assert forall|j: int| 0 <= j < items.len() implies text_of(#[trigger] items[j]) == Some(
                t.announce_list[i][j],
            ) by {
                assert(text_of(items[j]) is Some);
            }
        }
    }
}

/// What a key finds is its first entry: an entry with that key and that
/// value, with no entry of the key before it; a key of no entry finds
/// nothing.
pub proof fn lemma_lookup_first(p: Seq<(Seq<char>, Bencoded)>, key: Seq<char>)
    ensures
        lookup(p, key) matches Some(v) ==> exists|i: int|
            0 <= i < p.len() && #[trigger] p[i] == (key, v) && forall|j: int|
                0 <= j < i ==> (#[trigger] p[j]).0 != key,
        lookup(p, key) is None ==> forall|j: int| 0 <= j < p.len() ==> (#[trigger] p[j]).0 != key,
    decreases p.len(),
{
    if p.len() > 0 {
        lemma_lookup_first(p.drop_first(), key);
        if p[0].0 == key {
            assert(p[0] == (key, p[0].1));
        } else {
            if let Some(v) = lookup(p, key) {
                let i = choose|i: int|
                    0 <= i < p.drop_first().len() && #[trigger] p.drop_first()[i] == (key, v)
                        && forall|j: int| 0 <= j < i ==> (#[trigger] p.drop_first()[j]).0 != key;
                assert(p[i + 1] == (key, v));
                assert forall|j: int| 0 <= j < i + 1 implies (#[trigger] p[j]).0 != key by {
                    if j > 0 {
                        assert(p[j] == p.drop_first()[j - 1]);
                    }
                }
            } else {
                assert forall|j: int| 0 <= j < p.len() implies (#[trigger] p[j]).0 != key by {
                    if j > 0 {
                        assert(p[j] == p.drop_first()[j - 1]);
                    }
                }
            }
        }
    }
}

} // verus!
