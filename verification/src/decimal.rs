//! ASCII decimal numerals: the text of an integer as Rust prints it, and the
//! integer that Rust's `str::parse` reads back from a text.
use vstd::prelude::*;

verus! {

/// An ASCII digit `0`..=`9`.
pub open spec fn is_digit(b: u8) -> bool {
    48 <= b <= 57
}

pub open spec fn all_digits(s: Seq<u8>) -> bool {
    forall|i: int| 0 <= i < s.len() ==> is_digit(#[trigger] s[i])
}

/// The value of a string of decimal digits (most significant first).
pub open spec fn digits_value(s: Seq<u8>) -> nat
    decreases s.len(),
{
    if s.len() == 0 {
        0
    } else {
        digits_value(s.drop_last()) * 10 + (s.last() - 48) as nat
    }
}

/// The shortest decimal text of `n`, as `n.to_string()` writes it.
pub open spec fn decimal(n: nat) -> Seq<u8>
    decreases n,
{
    if n < 10 {
        seq![(48 + n) as u8]
    } else {
        decimal(n / 10).push((48 + n % 10) as u8)
    }
}

/// The decimal text of a signed integer, with a leading `-` when negative.
pub open spec fn signed_decimal(x: int) -> Seq<u8> {
    if x < 0 {
        seq![45u8] + decimal((-x) as nat)
    } else {
        decimal(x as nat)
    }
}

/// The integer written in `s` as Rust's integer `FromStr` reads it, before the
/// range of the target type is checked: an optional `+` (or `-` where `signed`)
/// followed by one or more ASCII digits, and nothing else.
pub open spec fn integer_text(s: Seq<u8>, signed: bool) -> Option<int> {
    if s.len() > 0 && (s[0] == 43u8 || (signed && s[0] == 45u8)) {
        let d = s.drop_first();
        if d.len() > 0 && all_digits(d) {
            if s[0] == 45u8 {
                Some(-(digits_value(d) as int))
            } else {
                Some(digits_value(d) as int)
            }
        } else {
            None
        }
    } else if s.len() > 0 && all_digits(s) {
        Some(digits_value(s) as int)
    } else {
        None
    }
}

/// What `str::parse::<isize>` gives on the text `s`.
pub open spec fn parse_isize_spec(s: Seq<u8>) -> Option<isize> {
    match integer_text(s, true) {
        Some(v) => if isize::MIN <= v <= isize::MAX { Some(v as isize) } else { None },
        None => None,
    }
}

/// What `str::parse::<i64>` gives on the text `s`.
pub open spec fn parse_i64_spec(s: Seq<u8>) -> Option<i64> {
    match integer_text(s, true) {
        Some(v) => if i64::MIN <= v <= i64::MAX { Some(v as i64) } else { None },
        None => None,
    }
}

/// What `str::parse::<usize>` gives on the text `s`.
pub open spec fn parse_usize_spec(s: Seq<u8>) -> Option<usize> {
    match integer_text(s, false) {
        Some(v) => if 0 <= v <= usize::MAX { Some(v as usize) } else { None },
        None => None,
    }
}

pub proof fn lemma_decimal(n: nat)
    ensures
        1 <= decimal(n).len() <= 20 || n > u64::MAX,
        decimal(n).len() >= 1,
        all_digits(decimal(n)),
        digits_value(decimal(n)) == n,
    decreases n,
{
    if n >= 10 {
        lemma_decimal(n / 10);
        let d = decimal(n / 10);
        assert(decimal(n).drop_last() =~= d);
        assert forall|i: int| 0 <= i < decimal(n).len() implies is_digit(#[trigger] decimal(n)[i]) by {
            if i < d.len() {
                assert(decimal(n)[i] == d[i]);
            }
        }
        assert(decimal(n).last() == (48 + n % 10) as u8);
        assert(n == (n / 10) * 10 + n % 10);
        assert(digits_value(decimal(n)) == digits_value(d) * 10 + n % 10);
        if n <= u64::MAX {
            lemma_decimal_len_bound(n);
        }
    } else {
        assert(decimal(n).drop_last() =~= Seq::<u8>::empty());
        assert(digits_value(Seq::<u8>::empty()) == 0);
        assert(digits_value(decimal(n)) == n);
    }
}

proof fn lemma_decimal_len_bound(n: nat)
    requires
        n <= u64::MAX,
    ensures
        decimal(n).len() <= 20,
{
    assert(pow10(20) == 100000000000000000000nat) by {
        reveal_with_fuel(pow10, 21);
    }
    lemma_decimal_len_le(n, 19);
}

/// Below `10^(k+1)`, the decimal text has at most `k + 1` digits.
proof fn lemma_decimal_len_le(n: nat, k: nat)
    requires
        n < pow10(k + 1),
    ensures
        decimal(n).len() <= k + 1,
    decreases k,
{
    if n >= 10 {
        assert(k > 0) by {
            if k == 0 {
                assert(pow10(1) == 10) by {
                    reveal_with_fuel(pow10, 2);
                }
            }
        }
        let k1 = (k - 1) as nat;
        assert(pow10(k + 1) == 10 * pow10(k));
        assert(n / 10 < pow10(k1 + 1)) by (nonlinear_arith)
            requires
                n < 10 * pow10(k),
                k1 + 1 == k,
        ;
        lemma_decimal_len_le(n / 10, k1);
    }
}

pub open spec fn pow10(k: nat) -> nat
    decreases k,
{
    if k == 0 {
        1
    } else {
        10 * pow10((k - 1) as nat)
    }
}

/// Appends the decimal text of `n` to `to`.
pub fn push_decimal(n: u64, to: &mut Vec<u8>)
    ensures
        final(to)@ == old(to)@ + decimal(n as nat),
    decreases n,
{
    if n >= 10 {
        push_decimal(n / 10, to);
    }
    to.push((48 + n % 10) as u8);
    proof {
        assert(old(to)@ + decimal(n as nat) =~= final(to)@) by {
            if n >= 10 {
            }
        }
    }
}

proof fn lemma_digits_value_step(t: Seq<u8>, k: int)
    requires
        0 <= k < t.len(),
    ensures
        digits_value(t.subrange(0, k + 1)) == digits_value(t.subrange(0, k)) * 10 + (t[k] - 48) as nat,
{
    assert(t.subrange(0, k + 1).drop_last() =~= t.subrange(0, k));
}

/// A digit string is worth at least as much as any of its prefixes.
proof fn lemma_digits_value_prefix(t: Seq<u8>, k: int)
    requires
        0 <= k <= t.len(),
        all_digits(t),
    ensures
        digits_value(t.subrange(0, k)) <= digits_value(t),
    decreases t.len(),
{
    if k == t.len() {
        assert(t.subrange(0, k) =~= t);
    } else {
        let u = t.drop_last();
        assert(all_digits(u)) by {
            assert forall|i: int| 0 <= i < u.len() implies is_digit(#[trigger] u[i]) by {
                assert(u[i] == t[i]);
            }
        }
        lemma_digits_value_prefix(u, k);
        assert(u.subrange(0, k) =~= t.subrange(0, k));
        assert(is_digit(t[t.len() - 1]));
    }
}

/// Reads the ASCII digits `s[start..]` as a `u64`.
fn read_digits(s: &[u8], start: usize) -> (r: Option<u64>)
    requires
        start <= s@.len(),
    ensures
        ({
            let t = s@.subrange(start as int, s@.len() as int);
            &&& r is Some <==> (t.len() > 0 && all_digits(t) && digits_value(t) <= u64::MAX)
            &&& r matches Some(v) ==> v == digits_value(t)
        }),
{
    let ghost t = s@.subrange(start as int, s@.len() as int);
    if start == s.len() {
        return None;
    }
    let mut acc: u64 = 0;
    let mut i: usize = start;
    assert(t.subrange(0, 0) =~= Seq::<u8>::empty());
    while i < s.len()
        invariant
            start <= i <= s@.len(),
            t == s@.subrange(start as int, s@.len() as int),
            all_digits(t.subrange(0, i - start)),
            acc == digits_value(t.subrange(0, i - start)),
        decreases s@.len() - i,
    {
        let c = s[i];
        if c < 48 || c > 57 {
            assert(t[i - start] == c);
            return None;
        }
        proof {
            lemma_digits_value_step(t, i - start);
            assert(t[i - start] == c);
        }
        let next: u128 = acc as u128 * 10 + (c - 48) as u128;
        if next > u64::MAX as u128 {
            proof {
                if all_digits(t) {
                    lemma_digits_value_prefix(t, i - start + 1);
                }
            }
            return None;
        }
        acc = next as u64;
        i = i + 1;
        proof {
            assert forall|j: int| 0 <= j < i - start implies is_digit(#[trigger] t.subrange(0, i - start)[j]) by {
                if j < i - 1 - start {
                    assert(t.subrange(0, i - start)[j] == t.subrange(0, i - 1 - start)[j]);
                }
            }
        }
    }
    assert(t.subrange(0, t.len() as int) =~= t);
    Some(acc)
}

/// The sign and the magnitude of the integer that `integer_text` reads from
/// `s`, where the magnitude fits in a `u64`.
fn read_integer(s: &[u8], signed: bool) -> (r: Option<(bool, u64)>)
    ensures
        r is Some <==> (integer_text(s@, signed) matches Some(v) && -u64::MAX <= v <= u64::MAX),
        r matches Some((neg, m)) ==> integer_text(s@, signed) == Some(
            if neg { -(m as int) } else { m as int },
        ),
{
    if s.len() > 0 && (s[0] == 43u8 || (signed && s[0] == 45u8)) {
        let neg = s[0] == 45u8;
        let m = read_digits(s, 1);
        assert(s@.subrange(1, s@.len() as int) =~= s@.drop_first());
        match m {
            Some(m) => Some((neg, m)),
            None => None,
        }
    } else {
        let m = read_digits(s, 0);
        assert(s@.subrange(0, s@.len() as int) =~= s@);
        match m {
            Some(m) => Some((false, m)),
            None => None,
        }
    }
}

/// `str::parse::<isize>` on the text `s`.
pub fn parse_isize(s: &[u8]) -> (r: Option<isize>)
    ensures
        r == parse_isize_spec(s@),
{
    match read_integer(s, true) {
        None => None,
        Some((neg, m)) => {
            if neg {
                if m <= isize::MAX as u64 {
                    Some(-(m as isize))
                } else if m == isize::MAX as u64 + 1 {
                    Some(isize::MIN)
                } else {
                    None
                }
            } else {
                if m <= isize::MAX as u64 {
                    Some(m as isize)
                } else {
                    None
                }
            }
        },
    }
}

/// `str::parse::<i64>` on the text `s`.
pub fn parse_i64(s: &[u8]) -> (r: Option<i64>)
    ensures
        r == parse_i64_spec(s@),
{
    match read_integer(s, true) {
        None => None,
        Some((neg, m)) => {
            if neg {
                if m <= i64::MAX as u64 {
                    Some(-(m as i64))
                } else if m == 9223372036854775808u64 {
                    Some(i64::MIN)
                } else {
                    None
                }
            } else {
                if m <= i64::MAX as u64 {
                    Some(m as i64)
                } else {
                    None
                }
            }
        },
    }
}

/// `str::parse::<usize>` on the text `s`.
pub fn parse_usize(s: &[u8]) -> (r: Option<usize>)
    ensures
        r == parse_usize_spec(s@),
{
    match read_integer(s, false) {
        None => None,
        Some((neg, m)) => {
            if m <= usize::MAX as u64 {
                Some(m as usize)
            } else {
                None
            }
        },
    }
}

/// Appends the decimal text of `x` (with a leading `-` when negative) to `to`.
pub fn push_signed_decimal(x: i64, to: &mut Vec<u8>)
    ensures
        final(to)@ == old(to)@ + signed_decimal(x as int),
{
    if x < 0 {
        to.push(45u8);
        let m: u64 = if x == i64::MIN {
            9223372036854775808u64
        } else {
            (-x) as u64
        };
        push_decimal(m, to);
        assert(final(to)@ =~= old(to)@ + signed_decimal(x as int));
    } else {
        push_decimal(x as u64, to);
    }
}

/// The length of the decimal text of `n`.
pub fn decimal_len(n: u64) -> (r: usize)
    ensures
        r == decimal(n as nat).len(),
    decreases n,
{
    proof {
        lemma_decimal(n as nat);
    }
    if n >= 10 {
        let k = decimal_len(n / 10);
        proof {
            lemma_decimal((n / 10) as nat);
        }
        k + 1
    } else {
        1
    }
}

} // verus!
verus! {

/// Rust's integer `FromStr` reads back the decimal text of any integer.
pub proof fn lemma_integer_text_signed_decimal(x: int)
    ensures
        integer_text(signed_decimal(x), true) == Some(x),
{
    if x < 0 {
        let s = signed_decimal(x);
        lemma_decimal((-x) as nat);
        assert(s.drop_first() =~= decimal((-x) as nat));
    } else {
        lemma_decimal(x as nat);
        assert(is_digit(decimal(x as nat)[0]));
    }
}

/// Rust's unsigned `FromStr` and the signed one read back the decimal text of
/// a natural number.
pub proof fn lemma_integer_text_decimal(n: nat)
    ensures
        integer_text(decimal(n), true) == Some(n as int),
        integer_text(decimal(n), false) == Some(n as int),
{
    lemma_decimal(n);
    assert(is_digit(decimal(n)[0]));
}

} // verus!
verus! {

/// The length of the decimal text of `x`, with its `-` when negative.
pub fn signed_decimal_len(x: i64) -> (r: usize)
    ensures
        r == signed_decimal(x as int).len(),
{
    if x < 0 {
        let m: u64 = if x == i64::MIN {
            9223372036854775808u64
        } else {
            (-x) as u64
        };
        let k = decimal_len(m);
        proof {
            lemma_decimal(m as nat);
        }
        k + 1
    } else {
        decimal_len(x as u64)
    }
}

} // verus!
verus! {

/// A decimal text is UTF-8 (it is ASCII).
pub proof fn lemma_decimal_valid_utf8(n: nat)
    ensures
        vstd::utf8::valid_utf8(decimal(n)),
{
    lemma_decimal(n);
    assert forall|i: int| 0 <= i < decimal(n).len() implies decimal(n)[i] < 128 by {
        assert(is_digit(decimal(n)[i]));
    }
    crate::utf8::lemma_ascii_valid_utf8(decimal(n));
}

/// The decimal text of `n` as a `String` (`n.to_string()`).
pub fn decimal_string(n: u64) -> (r: String)
    ensures
        r@ == vstd::utf8::decode_utf8(decimal(n as nat)),
        vstd::utf8::valid_utf8(decimal(n as nat)),
{
    let mut bytes: Vec<u8> = Vec::new();
    push_decimal(n, &mut bytes);
    proof {
        lemma_decimal(n as nat);
        assert(bytes@ =~= decimal(n as nat));
        assert forall|i: int| 0 <= i < bytes@.len() implies bytes@[i] < 128 by {
            assert(is_digit(decimal(n as nat)[i]));
        }
        crate::utf8::lemma_ascii_valid_utf8(bytes@);
    }
    match crate::utf8::string_from_utf8(bytes) {
        Ok(s) => s,
        Err(_) => String::new(),
    }
}

} // verus!
