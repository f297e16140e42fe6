//! The simple extractor: first and last literal digit of a line.

use vstd::prelude::*;
use vstd::string::StrSliceExecFns;

verus! {

/// A decimal digit character, '0' through '9'.
pub open spec fn is_digit_char(c: char) -> bool {
    '0' as int <= c as int <= '9' as int
}

/// The numeric value of a decimal digit character.
pub open spec fn digit_value(c: char) -> u32
    recommends
        is_digit_char(c),
{
    (c as u32 - '0' as u32) as u32
}

/// Folds one position's emission into the running (first, last) pair:
/// nothing emitted leaves the pair alone; the first emission sets both
/// components; a later emission replaces only the last component.
pub open spec fn combine(prev: Option<(u32, u32)>, e: Option<u32>) -> Option<(u32, u32)> {
    match e {
        None => prev,
        Some(d) => match prev {
            None => Some((d, d)),
            Some(p) => Some((p.0, d)),
        },
    }
}

/// What the simple extractor emits at position `i`: the value of a literal
/// digit character, or nothing.
pub open spec fn digit_emit(s: Seq<char>, i: int) -> Option<u32>
    recommends
        0 <= i < s.len(),
{
    if is_digit_char(s[i]) {
        Some(digit_value(s[i]))
    } else {
        None
    }
}

/// The (first, last) pair of literal digit values over the first `n`
/// characters of `s`, or `None` when none of them is a digit.
pub open spec fn simple_scan(s: Seq<char>, n: int) -> Option<(u32, u32)>
    decreases n,
{
    if n <= 0 {
        None
    } else {
        combine(simple_scan(s, n - 1), digit_emit(s, n - 1))
    }
}

/// First/last correctness for the simple extractor: the result is `None`
/// exactly when no position holds a digit; otherwise it pairs the first
/// digit's value with the last digit's value, in left-to-right order.
pub proof fn lemma_simple_scan_first_last(s: Seq<char>, n: int)
    requires
        0 <= n <= s.len(),
    ensures
        simple_scan(s, n) is None <==> (forall|j: int| 0 <= j < n ==> digit_emit(s, j) is None),
        simple_scan(s, n) matches Some(p) ==> exists|j: int|
            0 <= j < n && digit_emit(s, j) == Some(p.0) && (forall|j2: int|
                0 <= j2 < j ==> digit_emit(s, j2) is None),
        simple_scan(s, n) matches Some(p) ==> exists|j: int|
            0 <= j < n && digit_emit(s, j) == Some(p.1) && (forall|j2: int|
                j < j2 < n ==> digit_emit(s, j2) is None),
    decreases n,
{
    if n > 0 {
        lemma_simple_scan_first_last(s, n - 1);
        if simple_scan(s, n - 1) is None {
            if digit_emit(s, n - 1) is Some {
                let d = digit_emit(s, n - 1)->Some_0;
                assert(simple_scan(s, n) == Some((d, d)));
                assert(digit_emit(s, n - 1) == Some(d) && (forall|j2: int|
                    0 <= j2 < n - 1 ==> digit_emit(s, j2) is None));
            }
        } else {
            let p = simple_scan(s, n - 1)->Some_0;
            let jf = choose|j: int|
                0 <= j < n - 1 && digit_emit(s, j) == Some(p.0) && (forall|j2: int|
                    0 <= j2 < j ==> digit_emit(s, j2) is None);
            assert(0 <= jf < n && digit_emit(s, jf) == Some(p.0) && (forall|j2: int|
                0 <= j2 < jf ==> digit_emit(s, j2) is None));
            if digit_emit(s, n - 1) is Some {
                let d = digit_emit(s, n - 1)->Some_0;
                assert(simple_scan(s, n) == Some((p.0, d)));
                assert(digit_emit(s, n - 1) == Some(d) && (forall|j2: int|
                    n - 1 < j2 < n ==> digit_emit(s, j2) is None));
            } else {
                let jl = choose|j: int|
                    0 <= j < n - 1 && digit_emit(s, j) == Some(p.1) && (forall|j2: int|
                        j < j2 < n - 1 ==> digit_emit(s, j2) is None);
                assert(0 <= jl < n && digit_emit(s, jl) == Some(p.1) && (forall|j2: int|
                    jl < j2 < n ==> digit_emit(s, j2) is None));
            }
        }
    }
}

/// Returns the numeric values of the first and last decimal digit
/// characters of `s`, or `None` when `s` contains no digit. A line with a
/// single digit yields that digit twice.
pub fn first_and_last_digit(s: &str) -> (res: Option<(u32, u32)>)
    ensures
        res == simple_scan(s@, s@.len() as int),
{
    let n = s.unicode_len();
    let mut res: Option<(u32, u32)> = None;
    let mut i: usize = 0;
    while i < n
        invariant
            n == s@.len(),
            i <= n,
            res == simple_scan(s@, i as int),
        decreases n - i,
    {
        let c = s.get_char(i);
        let u = c as u32;
        if 48 <= u && u <= 57 {
            let d = u - 48;
            res = match res {
                None => Some((d, d)),
                Some((first, _)) => Some((first, d)),
            };
        }
        i = i + 1;
    }
    res
}

} // verus!
