//! Cube-game records: parsing "Game <id>: <count> <colour>, ..." lines and
//! questions over the parsed games.

use vstd::prelude::*;
use vstd::string::StrSliceExecFns;
use vstd::string::StringExecFns;
use crate::extract::{is_digit_char, digit_value};

verus! {

/// A character that ends a colour name: a space or a draw separator.
pub open spec fn is_sep_char(c: char) -> bool {
    c == ' ' || c == ',' || c == ';'
}

/// The position after the run of digit characters starting at `i`.
pub open spec fn digits_end(s: Seq<char>, i: int) -> int
    decreases s.len() - i
        when 0 <= i <= s.len()
{
    if i < s.len() && is_digit_char(s[i]) {
        digits_end(s, i + 1)
    } else {
        i
    }
}

/// The digit run starting at `i` spans exactly `[i, digits_end)`.
pub proof fn lemma_digits_end(s: Seq<char>, i: int)
    requires
        0 <= i <= s.len(),
    ensures
        i <= digits_end(s, i) <= s.len(),
        forall|j: int| i <= j < digits_end(s, i) ==> is_digit_char(s[j]),
        digits_end(s, i) < s.len() ==> !is_digit_char(s[digits_end(s, i)]),
    decreases s.len() - i,
{
    if i < s.len() && is_digit_char(s[i]) {
        lemma_digits_end(s, i + 1);
    }
}

/// The position after the colour name starting at `i`.
pub open spec fn color_end(s: Seq<char>, i: int) -> int
    decreases s.len() - i
        when 0 <= i <= s.len()
{
    if i < s.len() && !is_sep_char(s[i]) {
        color_end(s, i + 1)
    } else {
        i
    }
}

/// The colour name starting at `i` spans exactly `[i, color_end)`.
pub proof fn lemma_color_end(s: Seq<char>, i: int)
    requires
        0 <= i <= s.len(),
    ensures
        i <= color_end(s, i) <= s.len(),
        forall|j: int| i <= j < color_end(s, i) ==> !is_sep_char(s[j]),
        color_end(s, i) < s.len() ==> is_sep_char(s[color_end(s, i)]),
    decreases s.len() - i,
{
    if i < s.len() && !is_sep_char(s[i]) {
        lemma_color_end(s, i + 1);
    }
}

/// The numeric value of the digit run `s[i..j)`, most significant first.
pub open spec fn num_value(s: Seq<char>, i: int, j: int) -> int
    decreases j - i,
{
    if i >= j {
        0
    } else {
        num_value(s, i, j - 1) * 10 + digit_value(s[j - 1])
    }
}

/// A digit run's value is never negative.
pub proof fn lemma_num_value_nonneg(s: Seq<char>, i: int, j: int)
    requires
        forall|k: int| i <= k < j ==> is_digit_char(s[k]),
    ensures
        num_value(s, i, j) >= 0,
    decreases j - i,
{
    if i < j {
        lemma_num_value_nonneg(s, i, j - 1);
    }
}

/// Reading further digits never shrinks the value.
pub proof fn lemma_num_value_monotonic(s: Seq<char>, i: int, j: int, j2: int)
    requires
        i <= j <= j2,
        forall|k: int| i <= k < j2 ==> is_digit_char(s[k]),
    ensures
        num_value(s, i, j) <= num_value(s, i, j2),
    decreases j2 - j,
{
    if j < j2 {
        lemma_num_value_monotonic(s, i, j, j2 - 1);
        lemma_num_value_nonneg(s, i, j2 - 1);
    }
}

/// Reads the run of digit characters of `s` that starts at `i`, returning
/// its numeric value and the position just after the run.
fn scan_number(s: &str, i: usize) -> (r: (u32, usize))
    requires
        i < digits_end(s@, i as int),
        i <= s@.len(),
        num_value(s@, i as int, digits_end(s@, i as int)) <= u32::MAX,
    ensures
        r.1 == digits_end(s@, i as int),
        r.0 == num_value(s@, i as int, r.1 as int),
        i < r.1 <= s@.len(),
{
    proof {
        lemma_digits_end(s@, i as int);
    }
    let ghost de = digits_end(s@, i as int);
    let n = s.unicode_len();
    let mut j: usize = i;
    let mut acc: u32 = 0;
    loop
        invariant
            n == s@.len(),
            i <= j <= de <= n,
            de == digits_end(s@, i as int),
            acc == num_value(s@, i as int, j as int),
            num_value(s@, i as int, de) <= u32::MAX,
            forall|k: int| i <= k < de ==> is_digit_char(s@[k]),
            de < n ==> !is_digit_char(s@[de as int]),
        ensures
            j == de,
            acc == num_value(s@, i as int, de),
        decreases n - j,
    {
        if j >= n {
            break ;
        }
        let c = s.get_char(j);
        let u = c as u32;
        if u < 48 || u > 57 {
            proof {
                assert(!is_digit_char(s@[j as int]));
                assert(j >= de);
            }
            break ;
        }
        proof {
            assert(is_digit_char(s@[j as int]));
            assert(j < de);
            lemma_num_value_monotonic(s@, i as int, j + 1, de);
            lemma_num_value_nonneg(s@, i as int, j as int);
        }
        acc = acc * 10 + (u - 48);
        j = j + 1;
    }
    (acc, j)
}

/// The draw-list grammar from position `i`: a count, one space, a colour
/// name, and then either the end of the line or a separator "; " or ", "
/// followed by more of the same. Counts must fit the signed range they are
/// stored in.
pub open spec fn parts_wf(s: Seq<char>, i: int) -> bool
    decreases s.len() - i
        when 0 <= i <= s.len()
{
    let de = digits_end(s, i);
    let ce = color_end(s, de + 1);
    &&& i < de
    &&& de < s.len()
    &&& num_value(s, i, de) <= i32::MAX
    &&& s[de] == ' '
    &&& de + 1 < ce
    &&& ce <= s.len()
    &&& if ce == s.len() {
        true
    } else if (s[ce] == ',' || s[ce] == ';') && ce + 1 < s.len() && s[ce + 1] == ' ' {
        parts_wf(s, ce + 2)
    } else {
        false
    }
}

/// The flattened (colour, count) pairs of the draw list starting at `i`,
/// in the order they appear.
pub open spec fn spec_parts(s: Seq<char>, i: int) -> Seq<(Seq<char>, int)>
    decreases s.len() - i
        when 0 <= i <= s.len() && parts_wf(s, i)
{
    let de = digits_end(s, i);
    let ce = color_end(s, de + 1);
    let part = (s.subrange(de + 1, ce), num_value(s, i, de));
    if ce >= s.len() {
        seq![part]
    } else {
        seq![part] + spec_parts(s, ce + 2)
    }
}

/// The position of the first entry for `color`, or the length when absent.
pub open spec fn find_color(entries: Seq<(Seq<char>, int)>, color: Seq<char>) -> int
    decreases entries.len(),
{
    if entries.len() == 0 {
        0
    } else if entries[0].0 == color {
        0
    } else {
        1 + find_color(entries.drop_first(), color)
    }
}

/// `find_color` returns the first position holding `color`, or the length
/// when no entry holds it.
pub proof fn lemma_find_color(entries: Seq<(Seq<char>, int)>, color: Seq<char>)
    ensures
        0 <= find_color(entries, color) <= entries.len(),
        find_color(entries, color) < entries.len() ==> entries[find_color(entries, color)].0
            == color,
        forall|k: int| 0 <= k < find_color(entries, color) ==> entries[k].0 != color,
        find_color(entries, color) == entries.len() ==> forall|k: int|
            0 <= k < entries.len() ==> entries[k].0 != color,
    decreases entries.len(),
{
    if entries.len() > 0 && entries[0].0 != color {
        lemma_find_color(entries.drop_first(), color);
        assert forall|k: int| 0 <= k < find_color(entries, color) implies entries[k].0 != color by {
            if k > 0 {
                assert(entries.drop_first()[k - 1] == entries[k]);
            }
        }
        if find_color(entries, color) == entries.len() {
            assert forall|k: int| 0 <= k < entries.len() implies entries[k].0 != color by {
                if k > 0 {
                    assert(entries.drop_first()[k - 1] == entries[k]);
                }
            }
        }
    }
}

/// Folding one drawn (colour, count) pair into the per-colour maxima, as
/// the record fold does: a new colour enters with the larger of its count
/// and zero; a known colour keeps the larger of its maximum and the count.
pub open spec fn upsert(entries: Seq<(Seq<char>, int)>, color: Seq<char>, count: int) -> Seq<
    (Seq<char>, int),
> {
    let j = find_color(entries, color);
    if j < entries.len() {
        entries.update(
            j,
            (
                entries[j].0,
                if count > entries[j].1 {
                    count
                } else {
                    entries[j].1
                },
            ),
        )
    } else {
        entries.push(
            (
                color,
                if count > 0 {
                    count
                } else {
                    0
                },
            ),
        )
    }
}

/// Folds every (colour, count) pair of `parts` into `acc`, left to right.
pub open spec fn fold_entries(
    acc: Seq<(Seq<char>, int)>,
    parts: Seq<(Seq<char>, int)>,
) -> Seq<(Seq<char>, int)>
    decreases parts.len(),
{
    if parts.len() == 0 {
        acc
    } else {
        fold_entries(upsert(acc, parts[0].0, parts[0].1), parts.drop_first())
    }
}

/// The mathematical value of a per-colour maxima list: each colour as a
/// character sequence with its count.
pub open spec fn entries_view(entries: Seq<(String, i32)>) -> Seq<(Seq<char>, int)> {
    entries.map_values(|p: (String, i32)| (p.0@, p.1 as int))
}

/// One parsed game: its identifier, and for each colour of the record the
/// largest count drawn at once, in order of first appearance.
#[derive(Debug, PartialEq, Eq)]
pub struct Game {
    pub id: u32,
    pub max_colors: Vec<(String, i32)>,
}

/// A whole game record: the literal prefix "Game ", an identifier that
/// fits its unsigned range, the separator ": ", and a well-formed draw
/// list.
pub open spec fn game_wf(s: Seq<char>) -> bool {
    let de = digits_end(s, 5);
    &&& s.len() >= 5
    &&& s.subrange(0, 5) == seq!['G', 'a', 'm', 'e', ' ']
    &&& 5 < de
    &&& num_value(s, 5, de) <= u32::MAX
    &&& de + 2 <= s.len()
    &&& s[de] == ':'
    &&& s[de + 1] == ' '
    &&& parts_wf(s, de + 2)
}

/// The identifier of a well-formed game record.
pub open spec fn spec_game_id(s: Seq<char>) -> int {
    num_value(s, 5, digits_end(s, 5))
}

/// The per-colour maxima of a well-formed game record.
pub open spec fn spec_game_entries(s: Seq<char>) -> Seq<(Seq<char>, int)> {
    fold_entries(Seq::empty(), spec_parts(s, digits_end(s, 5) + 2))
}

/// Applies one drawn (colour, count) pair to the per-colour maxima held so
/// far.
fn upsert_entry(entries: &mut Vec<(String, i32)>, color: String, count: i32)
    ensures
        entries_view(final(entries)@) == upsert(entries_view(old(entries)@), color@, count as int),
{
    let ghost oldv = entries_view(entries@);
    proof {
        lemma_find_color(oldv, color@);
    }
    let mut j: usize = 0;
    while j < entries.len()
        invariant
            entries@ == old(entries)@,
            oldv == entries_view(entries@),
            j <= entries@.len(),
            forall|k: int| 0 <= k < j ==> oldv[k].0 != color@,
        decreases entries@.len() - j,
    {
        if entries[j].0 == color {
            proof {
                lemma_find_color(oldv, color@);
                assert(oldv[j as int].0 == color@);
                assert(find_color(oldv, color@) == j);
            }
            if count > entries[j].1 {
                entries[j].1 = count;
            }
            proof {
                assert(entries_view(entries@) =~= upsert(oldv, color@, count as int));
            }
            return ;
        }
        proof {
            assert(oldv[j as int].0 != color@);
        }
        j = j + 1;
    }
    proof {
        assert(find_color(oldv, color@) == oldv.len());
    }
    let stored = if count > 0 {
        count
    } else {
        0
    };
    entries.push((color, stored));
    proof {
        assert(entries_view(entries@) =~= upsert(oldv, color@, count as int));
    }
}

/// Parses one game record into its identifier and the per-colour maxima
/// over all its draws, colours in order of first appearance.
pub fn parse_game(s: &str) -> (g: Game)
    requires
        game_wf(s@),
    ensures
        g.id as int == spec_game_id(s@),
        entries_view(g.max_colors@) == spec_game_entries(s@),
{
    proof {
        lemma_digits_end(s@, 5);
    }
    let n = s.unicode_len();
    let (id, id_end) = scan_number(s, 5);
    let mut i: usize = id_end + 2;
    let mut entries: Vec<(String, i32)> = Vec::new();
    proof {
        assert(entries_view(entries@) =~= Seq::<(Seq<char>, int)>::empty());
    }
    loop
        invariant_except_break
            fold_entries(entries_view(entries@), spec_parts(s@, i as int)) == spec_game_entries(
                s@,
            ),
        invariant
            n == s@.len(),
            0 <= i <= n,
            parts_wf(s@, i as int),
        ensures
            entries_view(entries@) == spec_game_entries(s@),
        decreases n - i,
    {
        proof {
            lemma_digits_end(s@, i as int);
            lemma_color_end(s@, digits_end(s@, i as int) + 1);
        }
        let (count, de) = scan_number(s, i);
        let ghost ce_spec = color_end(s@, de as int + 1);
        let mut ce: usize = de + 1;
        loop
            invariant
                n == s@.len(),
                de + 1 <= ce <= ce_spec <= n,
                ce_spec == color_end(s@, de as int + 1),
                forall|k: int| de + 1 <= k < ce_spec ==> !is_sep_char(s@[k]),
                ce_spec < n ==> is_sep_char(s@[ce_spec as int]),
            ensures
                ce == ce_spec,
            decreases n - ce,
        {
            if ce >= n {
                break ;
            }
            let c = s.get_char(ce);
            if c == ' ' || c == ',' || c == ';' {
                proof {
                    assert(is_sep_char(s@[ce as int]));
                    assert(ce >= ce_spec);
                }
                break ;
            }
            proof {
                assert(!is_sep_char(s@[ce as int]));
                assert(ce < ce_spec);
            }
            ce = ce + 1;
        }
        let color_str = s.substring_char(de + 1, ce);
        let color = String::from_str(color_str);
        let ghost pre_entries = entries_view(entries@);
        let ghost parts = spec_parts(s@, i as int);
        upsert_entry(&mut entries, color, count as i32);
        proof {
            assert(parts[0] == (s@.subrange(de as int + 1, ce as int), count as int));
            assert(entries_view(entries@) == upsert(pre_entries, parts[0].0, parts[0].1));
            if ce < n {
                assert(parts =~= seq![parts[0]] + spec_parts(s@, ce as int + 2));
                assert(parts.drop_first() =~= spec_parts(s@, ce as int + 2));
            } else {
                assert(parts =~= seq![parts[0]]);
                assert(parts.drop_first() =~= Seq::<(Seq<char>, int)>::empty());
            }
        }
        if ce == n {
            proof {
                assert(fold_entries(entries_view(entries@), parts.drop_first())
                    == entries_view(entries@));
                assert(entries_view(entries@) == spec_game_entries(s@));
            }
            break ;
        }
        i = ce + 2;
    }
    Game { id, max_colors: entries }
}

/// The maximum recorded for `color`, zero when the colour never occurs.
pub open spec fn color_max(entries: Seq<(Seq<char>, int)>, color: Seq<char>) -> int {
    if find_color(entries, color) < entries.len() {
        entries[find_color(entries, color)].1
    } else {
        0
    }
}

/// A game is possible with a bag of 12 red, 13 green and 14 blue cubes.
pub open spec fn game_possible(g: Game) -> bool {
    &&& color_max(entries_view(g.max_colors@), "red"@) <= 12
    &&& color_max(entries_view(g.max_colors@), "green"@) <= 13
    &&& color_max(entries_view(g.max_colors@), "blue"@) <= 14
}

/// Returns the game's recorded maximum for `color`, zero when the colour
/// never occurs in the record.
pub fn max_for_color(g: &Game, color: &str) -> (m: i32)
    ensures
        m as int == color_max(entries_view(g.max_colors@), color@),
{
    let key = String::from_str(color);
    let ghost ev = entries_view(g.max_colors@);
    let mut j: usize = 0;
    while j < g.max_colors.len()
        invariant
            ev == entries_view(g.max_colors@),
            j <= g.max_colors@.len(),
            key@ == color@,
            forall|k: int| 0 <= k < j ==> ev[k].0 != color@,
        decreases g.max_colors@.len() - j,
    {
        if g.max_colors[j].0 == key {
            proof {
                lemma_find_color(ev, color@);
                assert(ev[j as int].0 == color@);
                assert(find_color(ev, color@) == j);
            }
            return g.max_colors[j].1;
        }
        proof {
            assert(ev[j as int].0 != color@);
        }
        j = j + 1;
    }
    proof {
        lemma_find_color(ev, color@);
        assert(find_color(ev, color@) == ev.len());
    }
    0
}

/// The sum of the identifiers of the possible games among the first `n`.
pub open spec fn id_sum(games: Seq<Game>, n: int) -> int
    decreases n,
{
    if n <= 0 {
        0
    } else {
        id_sum(games, n - 1) + if game_possible(games[n - 1]) {
            games[n - 1].id as int
        } else {
            0
        }
    }
}

/// The identifier sum over `n` games stays between 0 and `n` times the
/// largest identifier value.
pub proof fn lemma_id_sum_bounds(games: Seq<Game>, n: int)
    requires
        n >= 0,
    ensures
        0 <= id_sum(games, n) <= n * (u32::MAX as int),
    decreases n,
{
    if n > 0 {
        lemma_id_sum_bounds(games, n - 1);
    }
}

/// Sums the identifiers of the games that are possible with a bag of 12
/// red, 13 green and 14 blue cubes.
pub fn possible_id_sum(games: &Vec<Game>) -> (total: u64)
    requires
        games@.len() * (u32::MAX as int) <= u64::MAX,
    ensures
        total == id_sum(games@, games@.len() as int),
{
    let mut total: u64 = 0;
    let mut i: usize = 0;
    while i < games.len()
        invariant
            games@.len() * (u32::MAX as int) <= u64::MAX,
            i <= games@.len(),
            total == id_sum(games@, i as int),
        decreases games@.len() - i,
    {
        proof {
            lemma_id_sum_bounds(games@, i as int);
            assert((i + 1) * (u32::MAX as int) <= games@.len() * (u32::MAX as int))
                by (nonlinear_arith)
                requires
                    i + 1 <= games@.len(),
            ;
        }
        let g = &games[i];
        let possible = max_for_color(g, "red") <= 12 && max_for_color(g, "green") <= 13
            && max_for_color(g, "blue") <= 14;
        if possible {
            total = total + g.id as u64;
        }
        i = i + 1;
    }
    total
}

/// The power of a game's first `n` colour maxima: their product, one for
/// an empty record.
pub open spec fn game_power(entries: Seq<(Seq<char>, int)>, n: int) -> int
    decreases n,
{
    if n <= 0 {
        1
    } else {
        game_power(entries, n - 1) * entries[n - 1].1
    }
}

/// The sum of the powers of the first `n` games.
pub open spec fn power_sum_value(games: Seq<Game>, n: int) -> int
    decreases n,
{
    if n <= 0 {
        0
    } else {
        power_sum_value(games, n - 1) + game_power(
            entries_view(games[n - 1].max_colors@),
            games[n - 1].max_colors@.len() as int,
        )
    }
}

/// Sums the games' powers with plain signed arithmetic. The bounds demand
/// exactly that no intermediate product or partial sum leaves the `i64`
/// range, which is what keeps the plain arithmetic defined.
pub fn power_sum(games: &Vec<Game>) -> (total: i64)
    requires
        forall|gi: int, k: int|
            0 <= gi < games@.len() && 0 <= k <= games@[gi].max_colors@.len() ==> i64::MIN
                <= #[trigger] game_power(entries_view(games@[gi].max_colors@), k) <= i64::MAX,
        forall|m: int|
            0 <= m <= games@.len() ==> i64::MIN <= #[trigger] power_sum_value(games@, m)
                <= i64::MAX,
    ensures
        total == power_sum_value(games@, games@.len() as int),
{
    let mut total: i64 = 0;
    let mut i: usize = 0;
    while i < games.len()
        invariant
            forall|gi: int, k: int|
                0 <= gi < games@.len() && 0 <= k <= games@[gi].max_colors@.len() ==> i64::MIN
                    <= #[trigger] game_power(entries_view(games@[gi].max_colors@), k) <= i64::MAX,
            forall|m: int|
                0 <= m <= games@.len() ==> i64::MIN <= #[trigger] power_sum_value(games@, m)
                    <= i64::MAX,
            i <= games@.len(),
            total == power_sum_value(games@, i as int),
        decreases games@.len() - i,
    {
        let g = &games[i];
        let ghost ev = entries_view(g.max_colors@);
        let mut product: i64 = 1;
        let mut j: usize = 0;
        while j < g.max_colors.len()
            invariant
                forall|k: int|
                    0 <= k <= g.max_colors@.len() ==> i64::MIN <= #[trigger] game_power(ev, k)
                        <= i64::MAX,
                ev == entries_view(g.max_colors@),
                j <= g.max_colors@.len(),
                product == game_power(ev, j as int),
            decreases g.max_colors@.len() - j,
        {
            proof {
                assert(game_power(ev, j + 1) == game_power(ev, j as int) * ev[j as int].1);
                assert(ev[j as int].1 == g.max_colors@[j as int].1 as int);
            }
            product = product * g.max_colors[j].1 as i64;
            j = j + 1;
        }
        proof {
            assert(ev == entries_view(games@[i as int].max_colors@));
            assert(power_sum_value(games@, i + 1) == power_sum_value(games@, i as int)
                + game_power(ev, games@[i as int].max_colors@.len() as int));
            assert(i64::MIN <= power_sum_value(games@, i + 1) <= i64::MAX);
        }
        total = total + product;
        i = i + 1;
    }
    total
}

} // verus!
