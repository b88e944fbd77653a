//! Splitting a string at a separator and parsing both halves.

use vstd::prelude::*;
use vstd::string::StrSliceExecFns;
use core::str::FromStr;

verus! {

/// Relies on std's `FromStr::from_str`: parses the whole string as a `T`,
/// `None` where `T`'s parser rejects it. Nothing is assumed of which strings
/// parse, since `T` is arbitrary.
#[verifier::external_body]
fn parse_from_str<T: FromStr>(s: &str) -> (r: Option<T>)
{
    match T::from_str(s) {
        Ok(v) => Some(v),
        Err(_) => None,
    }
}

/// Splits `s` at the first occurrence of `separator` and parses the two
/// halves as `T`s: `Some((left, right))` when both parse, `None` when the
/// separator never occurs or either half is rejected.
pub fn parse_pair<T: FromStr>(s: &str, separator: char) -> (r: Option<(T, T)>)
    ensures
        (forall|j: int| 0 <= j < s@.len() ==> s@[j] != separator) ==> r is None,
        r is Some ==> exists|j: int| 0 <= j < s@.len() && s@[j] == separator,
{
    let n = s.unicode_len();
    let mut i: usize = 0;
    while i < n
        invariant
            i <= n,
            n == s@.len(),
            forall|j: int| 0 <= j < i ==> s@[j] != separator,
        decreases n - i,
    {
        if s.get_char(i) == separator {
            let left = s.substring_char(0, i);
            let right = s.substring_char(i + 1, n);
            let l: Option<T> = parse_from_str(left);
            let rgt: Option<T> = parse_from_str(right);
            match (l, rgt) {
                (Some(a), Some(b)) => {
                    return Some((a, b));
                },
                _ => {
                    return None;
                },
            }
        }
        i = i + 1;
    }
    None
}

} // verus!
