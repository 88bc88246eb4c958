use vstd::prelude::*;

verus! {

/// The fixed-point one: a normalized score `x` stands for the real `x / UNIT`.
pub const UNIT: i64 = 1073741824;

/// The longest string, in characters, that the scorers accept: within it
/// the alignment cells fit in 64 bits and the triangular numbers of the
/// normalization in 128.
pub const MAX_LEN: usize = 2147483647;

/// The tunable parameters of fuzzy resolution, read once and then only read.
///
/// `sw_nw_ratio` and `search_threshold` are fixed-point values over `UNIT`.
#[derive(Clone, Copy, Debug, PartialEq, Eq, Structural)]
pub struct Config {
    /// Added for two equal characters.
    pub match_score: i16,
    /// Added for two different characters.
    pub mismatch_penalty: i16,
    /// Added for a character aligned with a gap.
    pub gap_penalty: i16,
    /// Weight of the local score in the blend, from `0` to `UNIT`.
    pub sw_nw_ratio: i64,
    /// Smallest blended score, over `UNIT`, that keeps a candidate.
    pub search_threshold: i64,
}

impl Config {
    /// The alignment parameters have the signs the scorers need.
    pub open spec fn valid_scoring(self) -> bool {
        &&& self.match_score > 0
        &&& self.mismatch_penalty <= 0
        &&& self.gap_penalty <= 0
    }

    /// Valid scoring and a weight between zero and one.
    pub open spec fn valid(self) -> bool {
        &&& self.valid_scoring()
        &&& 0 <= self.sw_nw_ratio <= UNIT
    }

    /// The score of aligning `x` with `y`.
    pub open spec fn substitution(self, x: char, y: char) -> int {
        if x == y {
            self.match_score as int
        } else {
            self.mismatch_penalty as int
        }
    }

    /// The magnitude of the smallest of the three parameters.
    pub open spec fn worst_step(self) -> int {
        let lo = if self.mismatch_penalty < self.gap_penalty {
            self.mismatch_penalty as int
        } else {
            self.gap_penalty as int
        };
        if self.match_score < lo {
            -(self.match_score as int)
        } else {
            -lo
        }
    }

    /// The parameters used when none are configured: match 2, mismatch -1,
    /// gap -1, an even blend and a threshold of zero.
    pub fn default_params() -> (c: Config)
        ensures
            c.match_score == 2,
            c.mismatch_penalty == -1,
            c.gap_penalty == -1,
            c.sw_nw_ratio == UNIT / 2,
            c.search_threshold == 0,
            c.valid(),
    {
        Config {
            match_score: 2,
            mismatch_penalty: -1,
            gap_penalty: -1,
            sw_nw_ratio: UNIT / 2,
            search_threshold: 0,
        }
    }
}

} // verus!
