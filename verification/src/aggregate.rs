//! Folding per-line extraction results into one total.

use vstd::prelude::*;
use crate::extract::{simple_scan, first_and_last_digit, is_digit_char};
use crate::scanner::{scan, scan_emit, word_completes, part2_digit};

verus! {

/// The contribution of one line's result to the total: ten times the first
/// digit plus the last, and zero for a line without a result.
pub open spec fn line_value(r: Option<(u32, u32)>) -> int {
    match r {
        None => 0,
        Some(p) => 10 * p.0 + p.1,
    }
}

/// The result the chosen extractor assigns to one line: the overlapping
/// word scanner when `advanced` is set, the literal-digit extractor
/// otherwise.
pub open spec fn line_result(line: Seq<char>, advanced: bool) -> Option<(u32, u32)> {
    if advanced {
        scan(line, line.len() as int)
    } else {
        simple_scan(line, line.len() as int)
    }
}

/// The sum of line values over the first `n` lines.
pub open spec fn total_value(lines: Seq<String>, advanced: bool, n: int) -> int
    decreases n,
{
    if n <= 0 {
        0
    } else {
        total_value(lines, advanced, n - 1) + line_value(line_result(lines[n - 1]@, advanced))
    }
}

/// Every digit value the simple extractor reports lies between 0 and 9.
pub proof fn lemma_simple_scan_bounds(s: Seq<char>, n: int)
    ensures
        simple_scan(s, n) matches Some(p) ==> 0 <= p.0 <= 9 && 0 <= p.1 <= 9,
    decreases n,
{
    if n > 0 {
        lemma_simple_scan_bounds(s, n - 1);
    }
}

/// Every digit value the scanner reports lies between 0 and 9.
pub proof fn lemma_scan_bounds(s: Seq<char>, n: int)
    ensures
        scan(s, n) matches Some(p) ==> 0 <= p.0 <= 9 && 0 <= p.1 <= 9,
    decreases n,
{
    if n > 0 {
        lemma_scan_bounds(s, n - 1);
        if scan_emit(s, n - 1) is Some && !is_digit_char(s[n - 1]) {
            let v = choose|v: int| #[trigger] word_completes(s, n - 1, v);
            assert(word_completes(s, n - 1, v));
        }
    }
}

/// A line contributes between 0 and 99, so the total over `n` lines lies
/// between 0 and 99 times `n`.
pub proof fn lemma_total_bounds(lines: Seq<String>, advanced: bool, n: int)
    requires
        n >= 0,
    ensures
        0 <= total_value(lines, advanced, n) <= 99 * n,
    decreases n,
{
    if n > 0 {
        lemma_total_bounds(lines, advanced, n - 1);
        if advanced {
            lemma_scan_bounds(lines[n - 1]@, lines[n - 1]@.len() as int);
        } else {
            lemma_simple_scan_bounds(lines[n - 1]@, lines[n - 1]@.len() as int);
        }
    }
}

/// Sums the per-line results over all lines with the chosen extractor.
/// Each line contributes ten times its first digit plus its last digit,
/// and a line without any digit contributes zero.
pub fn calibration_total(lines: &Vec<String>, advanced: bool) -> (total: u64)
    requires
        lines@.len() * 99 <= u64::MAX,
    ensures
        total == total_value(lines@, advanced, lines@.len() as int),
{
    let mut total: u64 = 0;
    let mut i: usize = 0;
    while i < lines.len()
        invariant
            lines@.len() * 99 <= u64::MAX,
            i <= lines@.len(),
            total == total_value(lines@, advanced, i as int),
        decreases lines@.len() - i,
    {
        proof {
            lemma_total_bounds(lines@, advanced, i as int);
            if advanced {
                lemma_scan_bounds(lines@[i as int]@, lines@[i as int]@.len() as int);
            } else {
                lemma_simple_scan_bounds(lines@[i as int]@, lines@[i as int]@.len() as int);
            }
            assert(99 * (i + 1) <= 99 * lines@.len()) by (nonlinear_arith)
                requires
                    i + 1 <= lines@.len(),
            ;
        }
        let r = if advanced {
            part2_digit(lines[i].as_str())
        } else {
            first_and_last_digit(lines[i].as_str())
        };
        let add: u64 = match r {
            Some((first, last)) => (10 * first + last) as u64,
            None => 0,
        };
        total = total + add;
        i = i + 1;
    }
    total
}

} // verus!
