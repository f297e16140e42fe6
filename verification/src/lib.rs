//! Extraction of digit values from text lines.
//!
//! Two extractors walk a line left to right and report the first and last
//! digit value found: a simple one that looks only at literal decimal digit
//! characters, and a scanner that also recognises the spelled-out words
//! "one" through "nine", including occurrences that overlap. A small
//! aggregation layer folds per-line results into a total, and a separate
//! module parses cube-game records and answers questions about them.

pub mod aggregate;
pub mod extract;
pub mod games;
pub mod scanner;

pub use extract::first_and_last_digit;
pub use scanner::{part2_digit, part2_step, State, MatchState};
pub use aggregate::calibration_total;
pub use games::{parse_game, max_for_color, possible_id_sum, power_sum, Game};
