//! Parsing a pair of values written around a separator, such as `800x600`.
use vstd::prelude::*;

verus! {

/// An ASCII decimal digit.
pub open spec fn is_digit(c: char) -> bool {
    '0' <= c && c <= '9'
}

/// One or more ASCII decimal digits and nothing else.
pub open spec fn all_digits(s: Seq<char>) -> bool {
    s.len() >= 1 && forall|i: int| 0 <= i < s.len() ==> is_digit(#[trigger] s[i])
}

/// The number that a run of decimal digits denotes.
pub open spec fn digits_value(s: Seq<char>) -> int
    decreases s.len(),
{
    if s.len() == 0 {
        0
    } else {
        digits_value(s.drop_last()) * 10 + (s.last() as int - '0' as int)
    }
}

/// The integer that `s` writes in decimal with an optional `+` or `-` sign.
pub open spec fn signed_decimal(s: Seq<char>) -> Option<int> {
    if s.len() >= 1 && s[0] == '-' && all_digits(s.skip(1)) {
        Some(-digits_value(s.skip(1)))
    } else if s.len() >= 1 && s[0] == '+' && all_digits(s.skip(1)) {
        Some(digits_value(s.skip(1)))
    } else if all_digits(s) {
        Some(digits_value(s))
    } else {
        None
    }
}

/// The natural number that `s` writes in decimal with an optional `+` sign.
pub open spec fn unsigned_decimal(s: Seq<char>) -> Option<int> {
    if s.len() >= 1 && s[0] == '+' && all_digits(s.skip(1)) {
        Some(digits_value(s.skip(1)))
    } else if all_digits(s) {
        Some(digits_value(s))
    } else {
        None
    }
}

/// What parsing `s` as an `i32` gives: its signed decimal value, when it is in range.
pub open spec fn i32_of(s: Seq<char>) -> Option<i32> {
    match signed_decimal(s) {
        Some(v) => if i32::MIN <= v && v <= i32::MAX {
            Some(v as i32)
        } else {
            None
        },
        None => None,
    }
}

/// What parsing `s` as a `usize` gives: its unsigned decimal value, when it is in range.
pub open spec fn usize_of(s: Seq<char>) -> Option<usize> {
    match unsigned_decimal(s) {
        Some(v) => if v <= usize::MAX {
            Some(v as usize)
        } else {
            None
        },
        None => None,
    }
}

/// Relies on `i32`'s `FromStr`: an optional `+` or `-` followed by one or more
/// ASCII digits, and nothing else, whose value fits; anything else is an error.
#[verifier::external_body]
fn parse_i32(s: &str) -> (r: Option<i32>)
    ensures
        r == i32_of(s@),
{
    s.parse::<i32>().ok()
}

/// Relies on `usize`'s `FromStr`: an optional `+` followed by one or more
/// ASCII digits, and nothing else, whose value fits; anything else is an error.
#[verifier::external_body]
fn parse_usize(s: &str) -> (r: Option<usize>)
    ensures
        r == usize_of(s@),
{
    s.parse::<usize>().ok()
}

/// Relies on `str::split_once` with a `char` delimiter: it splits `s` around
/// the first occurrence of `sep`, and finds none when `sep` does not occur.
#[verifier::external_body]
fn split_at_first<'a>(s: &'a str, sep: char) -> (r: Option<(&'a str, &'a str)>)
    ensures
        match r {
            Some((left, right)) => s@ == left@ + seq![sep] + right@ && !left@.contains(sep),
            None => !s@.contains(sep),
        },
{
    s.split_once(sep)
}

/// A value that can stand on either side of a pair.
pub trait PairField: Sized {
    /// What parsing the text `s` gives.
    spec fn parsed(s: Seq<char>) -> Option<Self>;

    /// Parses `s`; `None` when it does not denote a value.
    fn parse_field(s: &str) -> (r: Option<Self>)
        ensures
            r == Self::parsed(s@),
    ;
}

impl PairField for i32 {
    open spec fn parsed(s: Seq<char>) -> Option<i32> {
        i32_of(s)
    }

    fn parse_field(s: &str) -> (r: Option<i32>) {
        parse_i32(s)
    }
}

impl PairField for usize {
    open spec fn parsed(s: Seq<char>) -> Option<usize> {
        usize_of(s)
    }

    fn parse_field(s: &str) -> (r: Option<usize>) {
        parse_usize(s)
    }
}

/// Both values, when both are present.
pub open spec fn both<T>(left: Option<T>, right: Option<T>) -> Option<(T, T)> {
    match (left, right) {
        (Some(l), Some(r)) => Some((l, r)),
        _ => None,
    }
}

/// `k` is the position of the first `sep` in `s`.
pub open spec fn first_at(s: Seq<char>, sep: char, k: int) -> bool {
    0 <= k < s.len() && s[k] == sep && !s.take(k).contains(sep)
}

/// Splits `s` around the first occurrence of `sep`, with the two halves in
/// the order they are written. `None` when `sep` does not occur in `s`.
pub fn split_pair<'a>(s: &'a str, sep: char) -> (r: Option<(&'a str, &'a str)>)
    ensures
        !s@.contains(sep) ==> r is None,
        forall|k: int|
            #[trigger] first_at(s@, sep, k) ==> (r matches Some((left, right)) && left@ == s@.take(
                k,
            ) && right@ == s@.skip(k + 1)),
{
    let r = split_at_first(s, sep);
    proof {
        if let Some((left, right)) = r {
            let n = left@.len() as int;
            assert(s@.take(n) =~= left@);
            assert(s@.skip(n + 1) =~= right@);
            assert(s@[n] == sep);
            assert forall|k: int| #[trigger] first_at(s@, sep, k) implies k == n by {
                if k < n {
                    assert(left@[k] == sep);
                    assert(left@.contains(sep));
                } else if k > n {
                    assert(s@.take(k)[n] == sep);
                    assert(s@.take(k).contains(sep));
                }
            }
        } else {
            assert forall|k: int| #[trigger] first_at(s@, sep, k) implies false by {
                assert(s@.contains(sep));
            }
        }
    }
    r
}

/// Parses `s` as two values separated by the first `sep`, as in `400x600`
/// with `x`, or `-3,7` with `,`. `None` when `sep` does not occur or
/// either side does not parse.
pub fn parse_pair<T: PairField>(s: &str, sep: char) -> (r: Option<(T, T)>)
    ensures
        !s@.contains(sep) ==> r is None,
        forall|k: int|
            #[trigger] first_at(s@, sep, k) ==> r == both(
                T::parsed(s@.take(k)),
                T::parsed(s@.skip(k + 1)),
            ),
{
    match split_pair(s, sep) {
        Some((left, right)) => {
            let l = T::parse_field(left);
            let r = T::parse_field(right);
            match (l, r) {
                (Some(a), Some(b)) => Some((a, b)),
                _ => None,
            }
        },
        None => None,
    }
}

} // verus!
