//! The first position of a byte in a byte string.
use vstd::prelude::*;

verus! {

/// `i` is the position of the first `b` in `s`.
pub open spec fn is_first(s: Seq<u8>, b: u8, i: int) -> bool {
    &&& 0 <= i < s.len()
    &&& s[i] == b
    &&& forall|j: int| 0 <= j < i ==> s[j] != b
}

/// The position of the first `b` in `s`, as `iter().position(..)` finds it.
pub open spec fn first_index(s: Seq<u8>, b: u8) -> Option<int> {
    if exists|i: int| is_first(s, b, i) {
        Some(choose|i: int| is_first(s, b, i))
    } else {
        None
    }
}

pub proof fn lemma_first_unique(s: Seq<u8>, b: u8, i: int, k: int)
    requires
        is_first(s, b, i),
        is_first(s, b, k),
    ensures
        i == k,
{
    if i < k {
        assert(s[i] != b);
    } else if k < i {
        assert(s[k] != b);
    }
}

/// `first_index` finds the first `b`, or finds nothing when `s` holds no `b`.
pub proof fn lemma_first_index(s: Seq<u8>, b: u8)
    ensures
        first_index(s, b) matches Some(i) ==> is_first(s, b, i),
        first_index(s, b) is None <==> forall|j: int| 0 <= j < s.len() ==> s[j] != b,
{
    if exists|j: int| 0 <= j < s.len() && s[j] == b {
        let j = choose|j: int| 0 <= j < s.len() && s[j] == b;
        lemma_some_first(s, b, j);
    }
}

proof fn lemma_some_first(s: Seq<u8>, b: u8, j: int)
    requires
        0 <= j < s.len(),
        s[j] == b,
    ensures
        exists|i: int| is_first(s, b, i),
    decreases j,
{
    if exists|k: int| 0 <= k < j && s[k] == b {
        let k = choose|k: int| 0 <= k < j && s[k] == b;
        lemma_some_first(s, b, k);
    } else {
        assert(is_first(s, b, j));
    }
}

pub proof fn lemma_first_index_is(s: Seq<u8>, b: u8, i: int)
    requires
        is_first(s, b, i),
    ensures
        first_index(s, b) == Some(i),
{
    let k = choose|k: int| is_first(s, b, k);
    lemma_first_unique(s, b, i, k);
}

/// The position of the first `b` in `s`.
pub fn position(s: &[u8], b: u8) -> (r: Option<usize>)
    ensures
        match r {
            Some(i) => first_index(s@, b) == Some(i as int),
            None => first_index(s@, b) is None,
        },
{
    let mut i: usize = 0;
    while i < s.len()
        invariant
            i <= s@.len(),
            forall|j: int| 0 <= j < i ==> s@[j] != b,
        decreases s@.len() - i,
    {
        if s[i] == b {
            proof {
                assert(is_first(s@, b, i as int));
                let k = choose|k: int| is_first(s@, b, k);
                lemma_first_unique(s@, b, i as int, k);
            }
            return Some(i);
        }
        i = i + 1;
    }
    proof {
        lemma_first_index(s@, b);
    }
    None
}

/// `a` and `b` hold the same bytes.
pub fn bytes_eq(a: &[u8], b: &[u8]) -> (r: bool)
    ensures
        r == (a@ == b@),
{
    if a.len() != b.len() {
        return false;
    }
    let mut i: usize = 0;
    while i < a.len()
        invariant
            a@.len() == b@.len(),
            i <= a@.len(),
            forall|j: int| 0 <= j < i ==> a@[j] == b@[j],
        decreases a@.len() - i,
    {
        if a[i] != b[i] {
            return false;
        }
        i = i + 1;
    }
    assert(a@ =~= b@);
    true
}

/// `a` and `b` are the same text.
pub fn str_eq(a: &str, b: &str) -> (r: bool)
    ensures
        r == (a@ == b@),
{
    let r = bytes_eq(a.as_bytes(), b.as_bytes());
    proof {
        vstd::utf8::encode_utf8_decode_utf8(a@);
        vstd::utf8::encode_utf8_decode_utf8(b@);
    }
    r
}

} // verus!
