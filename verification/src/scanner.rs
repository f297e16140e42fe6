//! The overlapping pattern scanner: first and last digit of a line, where a
//! digit is a literal digit character or a spelled-out word "one".."nine"
//! ending at that position. Occurrences may overlap ("eightwo" holds both 8
//! and 2).

use vstd::prelude::*;
use vstd::string::StrSliceExecFns;
use crate::extract::{is_digit_char, digit_value, combine};

verus! {

/// The spelling of the digit `v`, for `v` in 1..=9; empty otherwise.
pub open spec fn word(v: int) -> Seq<char> {
    if v == 1 {
        seq!['o', 'n', 'e']
    } else if v == 2 {
        seq!['t', 'w', 'o']
    } else if v == 3 {
        seq!['t', 'h', 'r', 'e', 'e']
    } else if v == 4 {
        seq!['f', 'o', 'u', 'r']
    } else if v == 5 {
        seq!['f', 'i', 'v', 'e']
    } else if v == 6 {
        seq!['s', 'i', 'x']
    } else if v == 7 {
        seq!['s', 'e', 'v', 'e', 'n']
    } else if v == 8 {
        seq!['e', 'i', 'g', 'h', 't']
    } else if v == 9 {
        seq!['n', 'i', 'n', 'e']
    } else {
        Seq::empty()
    }
}

/// Every digit word is between three and five characters long.
pub proof fn lemma_word_len(v: int)
    requires
        1 <= v <= 9,
    ensures
        3 <= word(v).len() <= 5,
{
}

/// The spelling of digit `v` ends exactly at position `i` of `s`.
pub open spec fn word_completes(s: Seq<char>, i: int, v: int) -> bool {
    &&& 1 <= v <= 9
    &&& word(v).len() <= i + 1
    &&& i < s.len()
    &&& s.subrange(i + 1 - word(v).len(), i + 1) == word(v)
}

/// What the scanner emits at position `i` of `s`: the value of a literal
/// digit character, or the value of a spelled word ending at `i`, or
/// nothing. At most one word can end at a given position
/// (`lemma_unique_completion`), so the choice below is determined.
pub open spec fn scan_emit(s: Seq<char>, i: int) -> Option<u32>
    recommends
        0 <= i < s.len(),
{
    if is_digit_char(s[i]) {
        Some(digit_value(s[i]))
    } else if exists|v: int| word_completes(s, i, v) {
        Some((choose|v: int| word_completes(s, i, v)) as u32)
    } else {
        None
    }
}

/// The (first, last) pair of emitted digit values over the first `n`
/// characters of `s`, or `None` when nothing is emitted.
pub open spec fn scan(s: Seq<char>, n: int) -> Option<(u32, u32)>
    decreases n,
{
    if n <= 0 {
        None
    } else {
        combine(scan(s, n - 1), scan_emit(s, n - 1))
    }
}

/// The exact length of the spelling of digit `v`.
pub fn word_len(v: u32) -> (n: usize)
    requires
        1 <= v <= 9,
    ensures
        n == word(v as int).len(),
{
    match v {
        1 => 3,
        2 => 3,
        3 => 5,
        4 => 4,
        5 => 4,
        6 => 3,
        7 => 5,
        8 => 5,
        _ => 4,
    }
}

/// The character at position `i` of the spelling of digit `v`.
fn word_char(v: u32, i: usize) -> (c: char)
    requires
        1 <= v <= 9,
        i < word(v as int).len(),
    ensures
        c == word(v as int)[i as int],
{
    match v {
        1 => match i {
            0 => 'o',
            1 => 'n',
            _ => 'e',
        },
        2 => match i {
            0 => 't',
            1 => 'w',
            _ => 'o',
        },
        3 => match i {
            0 => 't',
            1 => 'h',
            2 => 'r',
            _ => 'e',
        },
        4 => match i {
            0 => 'f',
            1 => 'o',
            2 => 'u',
            _ => 'r',
        },
        5 => match i {
            0 => 'f',
            1 => 'i',
            2 => 'v',
            _ => 'e',
        },
        6 => match i {
            0 => 's',
            1 => 'i',
            _ => 'x',
        },
        7 => match i {
            0 => 's',
            1 => 'e',
            2 => 'v',
            3 => 'e',
            _ => 'n',
        },
        8 => match i {
            0 => 'e',
            1 => 'i',
            2 => 'g',
            3 => 'h',
            _ => 't',
        },
        _ => match i {
            0 => 'n',
            1 => 'i',
            2 => 'n',
            _ => 'e',
        },
    }
}

/// The outcome of advancing one in-flight candidate by one character.
#[derive(Debug)]
pub enum MatchState {
    /// The character does not continue this candidate; it is dropped.
    NoMatch,
    /// The character finishes the candidate's word; the digit value is
    /// carried along.
    Match(u32),
    /// The character continues the candidate's word without finishing it.
    Continue,
}

/// One in-flight candidate: the word of digit `value` has matched its first
/// `idx` characters against the most recent input characters.
#[derive(Clone, Copy, Debug)]
pub struct State {
    pub value: u32,
    pub idx: usize,
}

impl State {
    /// A live candidate: a real digit word, with a nonempty strict prefix
    /// matched so far.
    pub open spec fn wf(self) -> bool {
        &&& 1 <= self.value <= 9
        &&& 1 <= self.idx < word(self.value as int).len()
    }

    /// Creates a candidate for the word of digit `value` with `idx`
    /// characters already matched.
    pub fn new(value: u32, idx: usize) -> (st: State)
        ensures
            st.value == value,
            st.idx == idx,
    {
        State { value, idx }
    }

    /// Advances this candidate by the input character `c`: on a match of
    /// the next expected character the cursor moves, and reaching the end
    /// of the word reports completion; on a mismatch the candidate reports
    /// failure and is left unchanged.
    pub fn step(&mut self, c: char) -> (r: MatchState)
        requires
            old(self).wf(),
        ensures
            final(self).value == old(self).value,
            ({
                let w = word(old(self).value as int);
                let k = old(self).idx as int;
                &&& (w[k] != c ==> r is NoMatch && final(self).idx == old(self).idx)
                &&& (w[k] == c ==> final(self).idx == old(self).idx + 1)
                &&& ((w[k] == c && k + 1 == w.len()) ==> r == MatchState::Match(old(self).value))
                &&& ((w[k] == c && k + 1 < w.len()) ==> r is Continue && final(self).wf())
            }),
    {
        let len = word_len(self.value);
        if word_char(self.value, self.idx) == c {
            self.idx = self.idx + 1;
            if self.idx >= len {
                return MatchState::Match(self.value);
            }
            return MatchState::Continue;
        }
        MatchState::NoMatch
    }
}

/// Some candidate in `sts` is for digit `v` with `k` characters matched.
pub open spec fn has_state(sts: Seq<State>, v: int, k: int) -> bool {
    exists|j: int| 0 <= j < sts.len() && sts[j].value == v && sts[j].idx == k
}

/// Every candidate in `sts` is live.
pub open spec fn all_wf(sts: Seq<State>) -> bool {
    forall|j: int| 0 <= j < sts.len() ==> (#[trigger] sts[j]).wf()
}

/// The candidate at position `j` of `sts` completes its word on input `c`.
pub open spec fn completes_at(sts: Seq<State>, j: int, c: char) -> bool {
    &&& sts[j].idx + 1 == word(sts[j].value as int).len()
    &&& word(sts[j].value as int)[sts[j].idx as int] == c
}

/// Some candidate in `sts` for digit `v` completes its word on input `c`.
pub open spec fn completes_from(sts: Seq<State>, v: int, c: char) -> bool {
    exists|j: int| 0 <= j < sts.len() && completes_at(sts, j, c) && sts[j].value == v
}

/// Appending a candidate extends the membership predicate by exactly that
/// candidate's (value, cursor) pair.
proof fn lemma_has_state_push(sts: Seq<State>, st: State, v: int, k: int)
    ensures
        has_state(sts.push(st), v, k) <==> (has_state(sts, v, k) || (st.value == v && st.idx
            == k)),
{
    if has_state(sts.push(st), v, k) {
        let j = choose|j: int|
            0 <= j < sts.push(st).len() && sts.push(st)[j].value == v && sts.push(st)[j].idx == k;
        if j < sts.len() {
            assert(sts[j] == sts.push(st)[j]);
            assert(has_state(sts, v, k));
        } else {
            assert(sts.push(st)[j] == st);
        }
    }
    if has_state(sts, v, k) {
        let j = choose|j: int| 0 <= j < sts.len() && sts[j].value == v && sts[j].idx == k;
        assert(sts.push(st)[j] == sts[j]);
        assert(has_state(sts.push(st), v, k));
    }
    if st.value == v && st.idx == k {
        assert(sts.push(st)[sts.len() as int] == st);
        assert(has_state(sts.push(st), v, k));
    }
}

/// One step of the scanner. A digit character clears every in-flight
/// candidate and is emitted itself. Any other character advances each
/// candidate, emits the value of a candidate that completes its word, and
/// then seeds a fresh candidate for every word that begins with `c`.
pub fn part2_step(c: char, state: &mut Vec<State>) -> (res: Option<u32>)
    requires
        all_wf(old(state)@),
    ensures
        all_wf(final(state)@),
        is_digit_char(c) ==> res == Some(digit_value(c)) && final(state)@.len() == 0,
        !is_digit_char(c) ==> {
            &&& forall|v: int, k: int|
                has_state(final(state)@, v, k) <==> ((k == 1 && 1 <= v <= 9 && word(v)[0] == c) || (
                2 <= k && 1 <= v <= 9 && k < word(v).len() && has_state(old(state)@, v, k - 1)
                    && word(v)[k - 1] == c))
            &&& (res is Some <==> exists|v: int| completes_from(old(state)@, v, c))
            &&& (forall|d: u32| res == Some(d) ==> completes_from(old(state)@, d as int, c))
        },
{
    let u = c as u32;
    if 48 <= u && u <= 57 {
        state.clear();
        return Some(u - 48);
    }
    let ghost olds = state@;
    let mut res: Option<u32> = None;
    let mut kept: Vec<State> = Vec::new();
    let mut j: usize = 0;
    while j < state.len()
        invariant
            state@ == olds,
            all_wf(olds),
            j <= olds.len(),
            all_wf(kept@),
            forall|v: int, k: int|
                has_state(kept@, v, k) <==> (2 <= k && 1 <= v <= 9 && k < word(v).len()
                    && word(v)[k - 1] == c && exists|j2: int|
                    0 <= j2 < j && olds[j2].value == v && olds[j2].idx == k - 1),
            (res is Some <==> exists|j2: int| 0 <= j2 < j && completes_at(olds, j2, c)),
            forall|d: u32|
                res == Some(d) ==> exists|j2: int|
                    0 <= j2 < j && completes_at(olds, j2, c) && olds[j2].value == d,
        decreases olds.len() - j,
    {
        let mut st = state[j];
        let ghost pre = st;
        let ghost kept0 = kept@;
        let r = st.step(c);
        match r {
            MatchState::Match(d) => {
                proof {
                    assert(completes_at(olds, j as int, c));
                }
                res = Some(d);
            },
            MatchState::Continue => {
                kept.push(st);
            },
            MatchState::NoMatch => {},
        }
        proof {
            assert(pre == olds[j as int]);
            let w = word(pre.value as int);
            assert forall|v: int, k: int|
                has_state(kept@, v, k) <==> (2 <= k && 1 <= v <= 9 && k < word(v).len() && word(v)[
                k - 1] == c && exists|j2: int|
                0 <= j2 < j + 1 && olds[j2].value == v && olds[j2].idx == k - 1) by {
                if r is Continue {
                    assert(kept@ == kept0.push(st));
                    assert forall|jj: int| 0 <= jj < kept@.len() implies (#[trigger] kept@[jj]).wf()
                    by {
                        if jj < kept0.len() {
                            assert(kept@[jj] == kept0[jj]);
                        } else {
                            assert(kept@[jj] == st);
                        }
                    }
                    lemma_has_state_push(kept0, st, v, k);
                    if st.value == v && st.idx == k {
                        // the survivor itself is witnessed by position j
                        assert(olds[j as int].value == v && olds[j as int].idx == k - 1);
                        assert(w[k - 1] == c);
                        assert(2 <= k && k < word(v).len());
                    }
                    if 2 <= k && 1 <= v <= 9 && k < word(v).len() && word(v)[k - 1] == c && exists|
                        j2: int,
                    | 0 <= j2 < j + 1 && olds[j2].value == v && olds[j2].idx == k - 1 {
                        let j2 = choose|j2: int|
                            0 <= j2 < j + 1 && olds[j2].value == v && olds[j2].idx == k - 1;
                        if j2 == j && !(st.value == v && st.idx == k) {
                            assert(w[pre.idx as int] == c);
                            assert(st.idx == pre.idx + 1);
                            assert(st.value == pre.value);
                            assert(false);
                        }
                        assert(has_state(kept@, v, k));
                    }
                } else {
                    assert(kept@ == kept0);
                    if 2 <= k && 1 <= v <= 9 && k < word(v).len() && word(v)[k - 1] == c && exists|
                        j2: int,
                    | 0 <= j2 < j + 1 && olds[j2].value == v && olds[j2].idx == k - 1 {
                        let j2 = choose|j2: int|
                            0 <= j2 < j + 1 && olds[j2].value == v && olds[j2].idx == k - 1;
                        if j2 == j {
                            // the candidate would have survived, contradicting
                            // that nothing was pushed this iteration
                            assert(v == pre.value && k == pre.idx + 1);
                            assert(w[pre.idx as int] == c);
                            assert(k < w.len());
                            assert(r is Continue);
                            assert(false);
                        }
                        assert(has_state(kept0, v, k));
                    }
                }
            }
        }
        j = j + 1;
    }
    proof {
        assert(j == olds.len());
        if res is Some {
            let j2 = choose|j2: int| 0 <= j2 < j && completes_at(olds, j2, c);
            assert(completes_from(olds, olds[j2].value as int, c));
        }
        if exists|v2: int| completes_from(olds, v2, c) {
            let v2 = choose|v2: int| completes_from(olds, v2, c);
            let j2 = choose|j2: int|
                0 <= j2 < olds.len() && completes_at(olds, j2, c) && olds[j2].value == v2;
            assert(0 <= j2 < j && completes_at(olds, j2, c));
        }
        assert forall|d: u32| res == Some(d) implies completes_from(olds, d as int, c) by {
            let j2 = choose|j2: int|
                0 <= j2 < j && completes_at(olds, j2, c) && olds[j2].value == d;
            assert(completes_from(olds, d as int, c));
        }
    }
    let mut v: u32 = 1;
    while v <= 9
        invariant
            1 <= v <= 10,
            all_wf(kept@),
            forall|v2: int, k: int|
                has_state(kept@, v2, k) <==> ((k == 1 && 1 <= v2 < v && word(v2)[0] == c) || (2 <= k
                    && 1 <= v2 <= 9 && k < word(v2).len() && has_state(olds, v2, k - 1)
                    && word(v2)[k - 1] == c)),
            (res is Some <==> exists|v2: int| completes_from(olds, v2, c)),
            forall|d: u32| res == Some(d) ==> completes_from(olds, d as int, c),
        decreases 10 - v,
    {
        let ghost kept1 = kept@;
        if word_char(v, 0) == c {
            kept.push(State::new(v, 1));
        }
        proof {
            let st = State { value: v, idx: 1 };
            if word(v as int)[0] == c {
                assert(kept@ == kept1.push(st));
                assert forall|jj: int| 0 <= jj < kept@.len() implies (#[trigger] kept@[jj]).wf()
                by {
                    if jj < kept1.len() {
                        assert(kept@[jj] == kept1[jj]);
                    } else {
                        assert(kept@[jj] == st);
                        lemma_word_len(v as int);
                    }
                }
            } else {
                assert(kept@ == kept1);
            }
            assert forall|v2: int, k: int|
                has_state(kept@, v2, k) <==> ((k == 1 && 1 <= v2 < v + 1 && word(v2)[0] == c) || (2
                    <= k && 1 <= v2 <= 9 && k < word(v2).len() && has_state(olds, v2, k - 1)
                    && word(v2)[k - 1] == c)) by {
                if word(v as int)[0] == c {
                    lemma_has_state_push(kept1, st, v2, k);
                }
            }
        }
        v = v + 1;
    }
    *state = kept;
    res
}

/// The first `k` characters of the word of digit `v` match the `k`
/// characters of `s` that end just before position `i`.
pub open spec fn partial_match(s: Seq<char>, i: int, v: int, k: int) -> bool {
    &&& 1 <= v <= 9
    &&& 1 <= k < word(v).len()
    &&& k <= i
    &&& s.subrange(i - k, i) == word(v).take(k)
}

/// The candidate collection holds exactly the partial matches present just
/// before position `i` of `s`.
pub open spec fn good_states(sts: Seq<State>, s: Seq<char>, i: int) -> bool {
    forall|v: int, k: int| has_state(sts, v, k) <==> partial_match(s, i, v, k)
}

/// No character of a digit word is itself a digit character.
pub proof fn lemma_word_chars_not_digits(v: int, k: int)
    requires
        1 <= v <= 9,
        0 <= k < word(v).len(),
    ensures
        !is_digit_char(word(v)[k]),
{
}

/// Growing a partial match by one character: the first `k` characters of a
/// word end just after position `i` exactly when its first `k - 1`
/// characters end just before `i` and character `k - 1` of the word is
/// `s[i]`.
pub proof fn lemma_partial_extend(s: Seq<char>, i: int, v: int, k: int)
    requires
        1 <= v <= 9,
        1 <= k <= word(v).len(),
        k <= i + 1,
        0 <= i < s.len(),
    ensures
        (s.subrange(i + 1 - k, i + 1) == word(v).take(k)) <==> ((k == 1 || s.subrange(i + 1 - k, i)
            == word(v).take(k - 1)) && word(v)[k - 1] == s[i]),
{
    let w = word(v);
    if s.subrange(i + 1 - k, i + 1) == w.take(k) {
        assert(w.take(k)[k - 1] == w[k - 1]);
        assert(s.subrange(i + 1 - k, i + 1)[k - 1] == s[i]);
        if k > 1 {
            assert forall|m: int| 0 <= m < k - 1 implies #[trigger] s.subrange(i + 1 - k, i)[m]
                == w.take(k - 1)[m] by {
                assert(s.subrange(i + 1 - k, i)[m] == s[i + 1 - k + m]);
                assert(s.subrange(i + 1 - k, i + 1)[m] == s[i + 1 - k + m]);
                assert(w.take(k)[m] == w[m]);
            }
            assert(s.subrange(i + 1 - k, i) =~= w.take(k - 1));
        }
    }
    if (k == 1 || s.subrange(i + 1 - k, i) == w.take(k - 1)) && w[k - 1] == s[i] {
        assert forall|m: int| 0 <= m < k implies s.subrange(i + 1 - k, i + 1)[m] == w.take(k)[m] by {
            if m < k - 1 {
                assert(s.subrange(i + 1 - k, i)[m] == s[i + 1 - k + m]);
                assert(w.take(k - 1)[m] == w[m]);
            }
        }
        assert(s.subrange(i + 1 - k, i + 1) =~= w.take(k));
    }
}

/// At most one digit word can end at a given position: the last three
/// characters already distinguish the nine words.
pub proof fn lemma_unique_completion(s: Seq<char>, i: int, v1: int, v2: int)
    requires
        word_completes(s, i, v1),
        word_completes(s, i, v2),
    ensures
        v1 == v2,
{
    let w1 = word(v1);
    let l1 = w1.len() as int;
    let w2 = word(v2);
    let l2 = w2.len() as int;
    lemma_word_len(v1);
    lemma_word_len(v2);
    assert(w1[l1 - 1] == s.subrange(i + 1 - l1, i + 1)[l1 - 1]);
    assert(w1[l1 - 2] == s.subrange(i + 1 - l1, i + 1)[l1 - 2]);
    assert(w1[l1 - 3] == s.subrange(i + 1 - l1, i + 1)[l1 - 3]);
    assert(w2[l2 - 1] == s.subrange(i + 1 - l2, i + 1)[l2 - 1]);
    assert(w2[l2 - 2] == s.subrange(i + 1 - l2, i + 1)[l2 - 2]);
    assert(w2[l2 - 3] == s.subrange(i + 1 - l2, i + 1)[l2 - 3]);
    assert(w1[l1 - 1] == s[i] && w1[l1 - 2] == s[i - 1] && w1[l1 - 3] == s[i - 2]);
    assert(w2[l2 - 1] == s[i] && w2[l2 - 2] == s[i - 1] && w2[l2 - 3] == s[i - 2]);
    assert(v1 == v2);
}

/// The scan is deterministic: it is a function of the character sequence
/// alone, so equal inputs always give equal results.
pub proof fn lemma_scan_deterministic(s: Seq<char>, t: Seq<char>)
    requires
        s == t,
    ensures
        scan(s, s.len() as int) == scan(t, t.len() as int),
{
}

/// First/last correctness: the scan of a prefix is `None` exactly when no
/// position of the prefix emits a digit; otherwise it returns the emission
/// of the first emitting position paired with the emission of the last
/// emitting position, in left-to-right order.
pub proof fn lemma_scan_first_last(s: Seq<char>, n: int)
    requires
        0 <= n <= s.len(),
    ensures
        scan(s, n) is None <==> (forall|j: int| 0 <= j < n ==> scan_emit(s, j) is None),
        scan(s, n) matches Some(p) ==> exists|j: int|
            0 <= j < n && scan_emit(s, j) == Some(p.0) && (forall|j2: int|
                0 <= j2 < j ==> scan_emit(s, j2) is None),
        scan(s, n) matches Some(p) ==> exists|j: int|
            0 <= j < n && scan_emit(s, j) == Some(p.1) && (forall|j2: int|
                j < j2 < n ==> scan_emit(s, j2) is None),
    decreases n,
{
    if n > 0 {
        lemma_scan_first_last(s, n - 1);
        if scan(s, n - 1) is None {
            if scan_emit(s, n - 1) is Some {
                let d = scan_emit(s, n - 1)->Some_0;
                assert(scan(s, n) == Some((d, d)));
                assert(scan_emit(s, n - 1) == Some(d) && (forall|j2: int|
                    0 <= j2 < n - 1 ==> scan_emit(s, j2) is None));
            }
        } else {
            let p = scan(s, n - 1)->Some_0;
            let jf = choose|j: int|
                0 <= j < n - 1 && scan_emit(s, j) == Some(p.0) && (forall|j2: int|
                    0 <= j2 < j ==> scan_emit(s, j2) is None);
            if scan_emit(s, n - 1) is Some {
                let d = scan_emit(s, n - 1)->Some_0;
                assert(scan(s, n) == Some((p.0, d)));
                assert(0 <= jf < n && scan_emit(s, jf) == Some(p.0) && (forall|j2: int|
                    0 <= j2 < jf ==> scan_emit(s, j2) is None));
                assert(scan_emit(s, n - 1) == Some(d) && (forall|j2: int|
                    n - 1 < j2 < n ==> scan_emit(s, j2) is None));
            } else {
                assert(scan(s, n) == Some(p));
                assert(0 <= jf < n && scan_emit(s, jf) == Some(p.0) && (forall|j2: int|
                    0 <= j2 < jf ==> scan_emit(s, j2) is None));
                let jl = choose|j: int|
                    0 <= j < n - 1 && scan_emit(s, j) == Some(p.1) && (forall|j2: int|
                        j < j2 < n - 1 ==> scan_emit(s, j2) is None);
                assert(0 <= jl < n && scan_emit(s, jl) == Some(p.1) && (forall|j2: int|
                    jl < j2 < n ==> scan_emit(s, j2) is None));
            }
        }
    }
}

/// A line whose only emitting position is `j` yields that position's
/// digit as both first and last.
pub proof fn lemma_single_occurrence(s: Seq<char>, j: int, d: u32)
    requires
        0 <= j < s.len(),
        scan_emit(s, j) == Some(d),
        forall|j2: int| 0 <= j2 < s.len() && j2 != j ==> scan_emit(s, j2) is None,
    ensures
        scan(s, s.len() as int) == Some((d, d)),
{
    let n = s.len() as int;
    lemma_scan_first_last(s, n);
    assert(!(scan(s, n) is None));
    let p = scan(s, n)->Some_0;
    let jf = choose|j2: int|
        0 <= j2 < n && scan_emit(s, j2) == Some(p.0) && (forall|j3: int|
            0 <= j3 < j2 ==> scan_emit(s, j3) is None);
    assert(jf == j);
    let jl = choose|j2: int|
        0 <= j2 < n && scan_emit(s, j2) == Some(p.1) && (forall|j3: int|
            j2 < j3 < n ==> scan_emit(s, j3) is None);
    assert(jl == j);
}

/// No-digit lines yield absence: when no position of `s` holds a literal
/// digit character and no digit word ends anywhere in `s`, the scan of `s`
/// is `None`.
pub proof fn lemma_no_digit_no_word_absent(s: Seq<char>)
    requires
        forall|j: int| 0 <= j < s.len() ==> !is_digit_char(s[j]),
        forall|j: int, v: int| !word_completes(s, j, v),
    ensures
        scan(s, s.len() as int) is None,
{
    assert forall|j: int| 0 <= j < s.len() implies scan_emit(s, j) is None by {
        assert(!is_digit_char(s[j]));
        assert(!(exists|v: int| word_completes(s, j, v)));
    }
    lemma_scan_first_last(s, s.len() as int);
}

/// A completed word spans only non-digit characters: a literal digit
/// inside the span would have broken the match, so no word completion ever
/// reaches across a digit character.
pub proof fn lemma_completion_spans_no_digit(s: Seq<char>, i: int, v: int, j: int)
    requires
        word_completes(s, i, v),
        i + 1 - word(v).len() <= j <= i,
    ensures
        !is_digit_char(s[j]),
{
    let w = word(v);
    let l = w.len() as int;
    assert(w[j - (i + 1 - l)] == s.subrange(i + 1 - l, i + 1)[j - (i + 1 - l)]);
    lemma_word_chars_not_digits(v, j - (i + 1 - l));
}

/// Scans `s` and returns the values of the first and last digits found,
/// where a digit at a position is a literal digit character there or a
/// spelled word "one".."nine" ending there; `None` when there is neither.
/// Overlapping words are each found on their own.
pub fn part2_digit(s: &str) -> (res: Option<(u32, u32)>)
    ensures
        res == scan(s@, s@.len() as int),
{
    let n = s.unicode_len();
    let mut res: Option<(u32, u32)> = None;
    let mut state: Vec<State> = Vec::new();
    let mut i: usize = 0;
    while i < n
        invariant
            n == s@.len(),
            i <= n,
            all_wf(state@),
            good_states(state@, s@, i as int),
            res == scan(s@, i as int),
        decreases n - i,
    {
        let c = s.get_char(i);
        let ghost pre = state@;
        let e = part2_step(c, &mut state);
        proof {
            let ii = i as int;
            let ss = s@;
            if is_digit_char(c) {
                assert(e == Some(digit_value(ss[ii])));
                assert forall|v: int, k: int|
                    has_state(state@, v, k) <==> partial_match(ss, ii + 1, v, k) by {
                    assert(!has_state(state@, v, k));
                    if partial_match(ss, ii + 1, v, k) {
                        lemma_partial_extend(ss, ii, v, k);
                        lemma_word_chars_not_digits(v, k - 1);
                        assert(false);
                    }
                }
            } else {
                // candidates after the step are the partial matches of i + 1
                assert forall|v: int, k: int|
                    has_state(state@, v, k) <==> partial_match(ss, ii + 1, v, k) by {
                    if 1 <= v <= 9 && 1 <= k < word(v).len() && k <= ii + 1 {
                        lemma_partial_extend(ss, ii, v, k);
                    }
                }
                // a candidate completes exactly when a word ends at i
                assert forall|v: int| completes_from(pre, v, c) <==> word_completes(ss, ii, v) by {
                    if completes_from(pre, v, c) {
                        let j = choose|j: int|
                            0 <= j < pre.len() && completes_at(pre, j, c) && pre[j].value == v;
                        assert(has_state(pre, v, pre[j].idx as int));
                        assert(partial_match(ss, ii, v, word(v).len() - 1));
                        lemma_word_len(v);
                        lemma_partial_extend(ss, ii, v, word(v).len() as int);
                        assert(word(v).take(word(v).len() as int) =~= word(v));
                        assert(word_completes(ss, ii, v));
                    }
                    if word_completes(ss, ii, v) {
                        lemma_word_len(v);
                        lemma_partial_extend(ss, ii, v, word(v).len() as int);
                        assert(word(v).take(word(v).len() as int) =~= word(v));
                        assert(partial_match(ss, ii, v, word(v).len() - 1));
                        assert(has_state(pre, v, word(v).len() - 1));
                        let j = choose|j: int|
                            0 <= j < pre.len() && pre[j].value == v && pre[j].idx == word(v).len()
                                - 1;
                        assert(completes_at(pre, j, c));
                        assert(completes_from(pre, v, c));
                    }
                }
                match e {
                    Some(d) => {
                        assert(completes_from(pre, d as int, c));
                        assert(word_completes(ss, ii, d as int));
                        let vc = choose|v: int| word_completes(ss, ii, v);
                        assert(word_completes(ss, ii, vc));
                        lemma_unique_completion(ss, ii, vc, d as int);
                        assert(scan_emit(ss, ii) == Some(d));
                    },
                    None => {
                        assert(!(exists|v: int| word_completes(ss, ii, v)));
                        assert(scan_emit(ss, ii) is None);
                    },
                }
            }
            assert(e == scan_emit(ss, ii));
        }
        match e {
            Some(d) => {
                res = match res {
                    None => Some((d, d)),
                    Some((first, _)) => Some((first, d)),
                };
            },
            None => {},
        }
        i = i + 1;
    }
    res
}

} // verus!
