use vstd::prelude::*;
use crate::config::{Config, MAX_LEN, UNIT};
use crate::text::chars_of;

verus! {

pub open spec fn max2(x: int, y: int) -> int {
    if x >= y {
        x
    } else {
        y
    }
}

pub open spec fn min2(x: int, y: int) -> int {
    if x <= y {
        x
    } else {
        y
    }
}

/// The `n`-th triangular number, `0 + 1 + ... + n`.
pub open spec fn tri(n: int) -> int {
    n * (n + 1) / 2
}

/// `tri(r) / tri(n)` over `UNIT`, rounded up so that only a zero `r` gives
/// zero; zero where `n` is zero.
pub open spec fn scaled_ratio(r: int, n: int) -> int {
    if n <= 0 {
        0
    } else {
        (tri(r) * UNIT + tri(n) - 1) / tri(n)
    }
}

/// Cell `(i, j)` of the local-alignment matrix of `a` and `b`.
pub open spec fn sw_cell(a: Seq<char>, b: Seq<char>, c: Config, i: nat, j: nat) -> int
    decreases i + j,
{
    if i == 0 || j == 0 {
        0
    } else {
        max2(
            max2(0, sw_cell(a, b, c, i, (j - 1) as nat) + c.gap_penalty),
            max2(
                sw_cell(a, b, c, (i - 1) as nat, j) + c.gap_penalty,
                sw_cell(a, b, c, (i - 1) as nat, (j - 1) as nat) + c.substitution(
                    a[i - 1],
                    b[j - 1],
                ),
            ),
        )
    }
}

/// The largest local-alignment cell in rows `1..i` and in row `i` up to column `j`.
pub open spec fn sw_upto(a: Seq<char>, b: Seq<char>, c: Config, i: nat, j: nat) -> int
    decreases i, j,
{
    if i == 0 {
        0
    } else if j == 0 {
        sw_upto(a, b, c, (i - 1) as nat, b.len())
    } else {
        max2(sw_upto(a, b, c, i, (j - 1) as nat), sw_cell(a, b, c, i, j))
    }
}

/// The raw local-alignment score: the largest cell of the whole matrix.
pub open spec fn sw_raw(a: Seq<char>, b: Seq<char>, c: Config) -> int {
    sw_upto(a, b, c, a.len(), b.len())
}

/// The normalized local-alignment score of `a` and `b`, over `UNIT`.
///
/// With `n` the best score of a full match of the shorter string, it is
/// `tri(raw) / tri(n)`: the triangular numbers keep the denominator
/// `n * (n + 1) / 2` and make a perfect match worth exactly one.
pub open spec fn sw_score(a: Seq<char>, b: Seq<char>, c: Config) -> int {
    scaled_ratio(sw_raw(a, b, c), min2(a.len() as int, b.len() as int) * c.match_score)
}

proof fn lemma_sw_cell_bounds(a: Seq<char>, b: Seq<char>, c: Config, i: nat, j: nat)
    requires
        c.valid_scoring(),
        i <= a.len(),
        j <= b.len(),
    ensures
        0 <= sw_cell(a, b, c, i, j) <= c.match_score * min2(i as int, j as int),
    decreases i + j,
{
    if i > 0 && j > 0 {
        lemma_sw_cell_bounds(a, b, c, i, (j - 1) as nat);
        lemma_sw_cell_bounds(a, b, c, (i - 1) as nat, j);
        lemma_sw_cell_bounds(a, b, c, (i - 1) as nat, (j - 1) as nat);
        assert(c.match_score * min2(i as int, (j - 1) as int) <= c.match_score * min2(i as int, j as int)) by (nonlinear_arith)
            requires c.match_score > 0;
        assert(c.match_score * min2((i - 1) as int, j as int) <= c.match_score * min2(i as int, j as int)) by (nonlinear_arith)
            requires c.match_score > 0;
        assert(c.match_score * min2((i - 1) as int, (j - 1) as int) + c.match_score == c.match_score * min2(i as int, j as int)) by (nonlinear_arith)
            requires i > 0, j > 0;
    }
}

proof fn lemma_sw_upto_bounds(a: Seq<char>, b: Seq<char>, c: Config, i: nat, j: nat)
    requires
        c.valid_scoring(),
        i <= a.len(),
        j <= b.len(),
    ensures
        0 <= sw_upto(a, b, c, i, j) <= c.match_score * min2(a.len() as int, b.len() as int),
    decreases i, j,
{
    if i > 0 {
        if j == 0 {
            lemma_sw_upto_bounds(a, b, c, (i - 1) as nat, b.len());
        } else {
            lemma_sw_upto_bounds(a, b, c, i, (j - 1) as nat);
            lemma_sw_cell_bounds(a, b, c, i, j);
            assert(c.match_score * min2(i as int, j as int) <= c.match_score * min2(a.len() as int, b.len() as int)) by (nonlinear_arith)
                requires c.match_score > 0, i <= a.len(), j <= b.len();
        }
    }
}


proof fn lemma_tri_mono(r: int, n: int)
    requires
        0 <= r <= n,
    ensures
        0 <= tri(r) <= tri(n),
        n >= 1 ==> tri(n) >= 1,
{
    assert(0 <= r * (r + 1) <= n * (n + 1)) by (nonlinear_arith)
        requires 0 <= r <= n;
    assert(n >= 1 ==> n * (n + 1) >= 2) by (nonlinear_arith);
}

proof fn lemma_scaled_ratio_bounds(r: int, n: int)
    requires
        0 <= r <= n,
    ensures
        0 <= scaled_ratio(r, n) <= UNIT,
        r == n ==> scaled_ratio(r, n) == if n == 0 { 0 } else { UNIT as int },
        (scaled_ratio(r, n) > 0) == (r > 0),
{
    if n > 0 {
        lemma_tri_mono(r, n);
        let tr = tri(r);
        let tn = tri(n);
        let x = tr * UNIT + tn - 1;
        let q = x / tn;
        assert(r > 0 ==> tr >= 1) by (nonlinear_arith)
            requires tr == r * (r + 1) / 2, r >= 0;
        assert(r == 0 ==> tr == 0);
        vstd::arithmetic::div_mod::lemma_fundamental_div_mod(x, tn);
        vstd::arithmetic::div_mod::lemma_mod_pos_bound(x, tn);
        let m = x % tn;
        assert(x == tn * q + m && 0 <= m < tn);
        assert(0 <= q <= UNIT) by (nonlinear_arith)
            requires x == tn * q + m, 0 <= m < tn, 0 <= tr <= tn, x == tr * UNIT + tn - 1, tn >= 1;
        assert(tr >= 1 ==> q >= 1) by (nonlinear_arith)
            requires x == tn * q + m, 0 <= m < tn, x == tr * UNIT + tn - 1, tn >= 1, q >= 0;
        assert(tr == 0 ==> q == 0) by (nonlinear_arith)
            requires x == tn * q + m, 0 <= m < tn, x == tr * UNIT + tn - 1, tn >= 1, q >= 0;
        assert(tr == tn ==> q == UNIT) by (nonlinear_arith)
            requires x == tn * q + m, 0 <= m < tn, x == tr * UNIT + tn - 1, tn >= 1, q >= 0, q <= UNIT;
    }
}

/// Some character of `a` also occurs in `b`.
pub open spec fn shares_char(a: Seq<char>, b: Seq<char>) -> bool {
    exists|i: int, j: int| 0 <= i < a.len() && 0 <= j < b.len() && a[i] == b[j]
}

proof fn lemma_sw_cell_zero(a: Seq<char>, b: Seq<char>, c: Config, i: nat, j: nat)
    requires
        c.valid_scoring(),
        !shares_char(a, b),
        i <= a.len(),
        j <= b.len(),
    ensures
        sw_cell(a, b, c, i, j) == 0,
    decreases i + j,
{
    if i > 0 && j > 0 {
        lemma_sw_cell_zero(a, b, c, i, (j - 1) as nat);
        lemma_sw_cell_zero(a, b, c, (i - 1) as nat, j);
        lemma_sw_cell_zero(a, b, c, (i - 1) as nat, (j - 1) as nat);
        assert(a[i - 1] != b[j - 1]);
    }
}

proof fn lemma_sw_upto_zero(a: Seq<char>, b: Seq<char>, c: Config, i: nat, j: nat)
    requires
        c.valid_scoring(),
        !shares_char(a, b),
        i <= a.len(),
        j <= b.len(),
    ensures
        sw_upto(a, b, c, i, j) == 0,
    decreases i, j,
{
    if i > 0 {
        if j == 0 {
            lemma_sw_upto_zero(a, b, c, (i - 1) as nat, b.len());
        } else {
            lemma_sw_upto_zero(a, b, c, i, (j - 1) as nat);
            lemma_sw_cell_zero(a, b, c, i, j);
        }
    }
}

proof fn lemma_sw_upto_covers(a: Seq<char>, b: Seq<char>, c: Config, i: nat, j: nat, x: nat, y: nat)
    requires
        1 <= x <= i <= a.len(),
        j <= b.len(),
        1 <= y <= b.len(),
        x < i || y <= j,
    ensures
        sw_upto(a, b, c, i, j) >= sw_cell(a, b, c, x, y),
    decreases i, j,
{
    if j == 0 {
        lemma_sw_upto_covers(a, b, c, (i - 1) as nat, b.len(), x, y);
    } else if x == i && y == j {
    } else {
        lemma_sw_upto_covers(a, b, c, i, (j - 1) as nat, x, y);
    }
}

/// The raw local score is positive exactly when the strings share a character.
proof fn lemma_sw_raw_positive(a: Seq<char>, b: Seq<char>, c: Config)
    requires
        c.valid_scoring(),
    ensures
        (sw_raw(a, b, c) > 0) == shares_char(a, b),
{
    if shares_char(a, b) {
        let (i, j) = choose|i: int, j: int| 0 <= i < a.len() && 0 <= j < b.len() && a[i] == b[j];
        lemma_sw_cell_bounds(a, b, c, i as nat, j as nat);
        assert(sw_cell(a, b, c, (i + 1) as nat, (j + 1) as nat) >= sw_cell(a, b, c, i as nat, j as nat) + c.match_score);
        lemma_sw_upto_covers(a, b, c, a.len(), b.len(), (i + 1) as nat, (j + 1) as nat);
    } else {
        lemma_sw_upto_zero(a, b, c, a.len(), b.len());
    }
}

/// `tri(r) / tri(n)` over `UNIT`, as a machine integer.
fn scaled_ratio_exec(r: u64, n: u64) -> (s: i64)
    requires
        r <= n,
        n <= 0x8000_0000_0000,
    ensures
        s == scaled_ratio(r as int, n as int),
        0 <= s <= UNIT,
        (s > 0) == (r > 0),
{
    proof {
        lemma_scaled_ratio_bounds(r as int, n as int);
    }
    if n == 0 {
        0
    } else {
        let r2 = r as u128;
        let n2 = n as u128;
        assert(r2 * (r2 + 1) <= n2 * (n2 + 1) <= 0x8000_0000_0001 * 0x8000_0000_0000) by (nonlinear_arith)
            requires r2 <= n2, n2 <= 0x8000_0000_0000;
        let tr = r2 * (r2 + 1) / 2;
        let tn = n2 * (n2 + 1) / 2;
        assert(tr * (UNIT as u128) <= 0x8000_0000_0001 * 0x8000_0000_0000 * 1073741824) by (nonlinear_arith)
            requires tr <= 0x8000_0000_0001 * 0x8000_0000_0000;
        assert(tn <= 0x8000_0000_0001 * 0x8000_0000_0000);
        assert(n2 * (n2 + 1) >= 2) by (nonlinear_arith)
            requires n2 >= 1;
        let q = (tr * (UNIT as u128) + tn - 1) / tn;
        q as i64
    }
}

/// Scores how well some stretch of `seq_1` matches some stretch of `seq_2`
/// (local alignment), normalized into `0..=UNIT`.
pub fn smith_waterman(seq_1: &str, seq_2: &str, config: &Config) -> (r: i64)
    requires
        config.valid_scoring(),
        seq_1@.len() <= MAX_LEN,
        seq_2@.len() <= MAX_LEN,
    ensures
        r == sw_score(seq_1@, seq_2@, *config),
        0 <= r <= UNIT,
        (r > 0) == shares_char(seq_1@, seq_2@),
        seq_1@ == seq_2@ && seq_1@.len() > 0 ==> r == UNIT,
        seq_1@.len() == 0 ==> r == 0,
{
    let a = chars_of(seq_1);
    let b = chars_of(seq_2);
    let raw = sw_raw_exec(&a, &b, config);
    let shorter = if a.len() <= b.len() { a.len() } else { b.len() };
    proof {
        lemma_sw_upto_bounds(a@, b@, *config, a@.len(), b@.len());
        assert(shorter * config.match_score <= 0x7FFF_FFFF * 0x8000) by (nonlinear_arith)
            requires shorter <= 0x7FFF_FFFF, config.match_score <= 0x8000, config.match_score > 0;
        assert(min2(a@.len() as int, b@.len() as int) == shorter);
    }
    let n = (shorter as u64) * (config.match_score as u64);
    assert(n == config.match_score * min2(a@.len() as int, b@.len() as int)) by (nonlinear_arith)
        requires n == shorter * config.match_score, min2(a@.len() as int, b@.len() as int) == shorter;
    assert(min2(a@.len() as int, b@.len() as int) * config.match_score == n) by (nonlinear_arith)
        requires n == shorter * config.match_score, min2(a@.len() as int, b@.len() as int) == shorter;
    proof {
        lemma_sw_raw_positive(a@, b@, *config);
        if a@ == b@ && a@.len() > 0 {
            lemma_sw_self_is_one(a@, *config);
        }
        lemma_empty_scores_zero(b@, *config);
    }
    scaled_ratio_exec(raw as u64, n)
}

fn sw_raw_exec(a: &Vec<char>, b: &Vec<char>, c: &Config) -> (r: i64)
    requires
        c.valid_scoring(),
        a@.len() <= MAX_LEN,
        b@.len() <= MAX_LEN,
    ensures
        r == sw_raw(a@, b@, *c),
{
    let n = a.len();
    let m = b.len();
    let mut prev: Vec<i64> = Vec::new();
    let mut k: usize = 0;
    while k <= m
        invariant
            k <= m + 1,
            m == b@.len(),
            m <= MAX_LEN,
            prev@.len() == k,
            forall|x: int| 0 <= x < k ==> prev@[x] == 0,
        decreases m + 1 - k,
    {
        prev.push(0);
        k += 1;
    }
    assert forall|x: int| 0 <= x <= m implies prev@[x] == sw_cell(a@, b@, *c, 0, x as nat) by {}
    let mut best: i64 = 0;
    let mut i: usize = 1;
    while i <= n
        invariant
            1 <= i <= n + 1,
            n == a@.len(),
            m == b@.len(),
            n <= MAX_LEN,
            m <= MAX_LEN,
            c.valid_scoring(),
            prev@.len() == m + 1,
            forall|x: int| 0 <= x <= m ==> prev@[x] == sw_cell(a@, b@, *c, (i - 1) as nat, x as nat),
            best == sw_upto(a@, b@, *c, (i - 1) as nat, m as nat),
        decreases n + 1 - i,
    {
        let mut cur: Vec<i64> = Vec::new();
        cur.push(0);
        let mut j: usize = 1;
        proof {
            lemma_sw_upto_bounds(a@, b@, *c, (i - 1) as nat, m as nat);
        }
        while j <= m
            invariant
                1 <= i <= n,
                1 <= j <= m + 1,
                n == a@.len(),
                m == b@.len(),
                n <= MAX_LEN,
                m <= MAX_LEN,
                c.valid_scoring(),
                prev@.len() == m + 1,
                forall|x: int| 0 <= x <= m ==> prev@[x] == sw_cell(a@, b@, *c, (i - 1) as nat, x as nat),
                cur@.len() == j,
                forall|x: int| 0 <= x < j ==> cur@[x] == sw_cell(a@, b@, *c, i as nat, x as nat),
                best == if j == 1 { sw_upto(a@, b@, *c, (i - 1) as nat, m as nat) } else { sw_upto(a@, b@, *c, i as nat, (j - 1) as nat) },
            decreases m + 1 - j,
        {
            proof {
                lemma_sw_cell_bounds(a@, b@, *c, i as nat, (j - 1) as nat);
                lemma_sw_cell_bounds(a@, b@, *c, (i - 1) as nat, j as nat);
                lemma_sw_cell_bounds(a@, b@, *c, (i - 1) as nat, (j - 1) as nat);
                lemma_sw_cell_bounds(a@, b@, *c, i as nat, j as nat);
                assert(c.match_score * min2(i as int, j as int) <= 0x8000 * 0x7FFF_FFFF) by (nonlinear_arith)
                    requires c.match_score <= 0x8000, c.match_score > 0, i <= 0x7FFF_FFFF, j <= 0x7FFF_FFFF, min2(i as int, j as int) <= i;
            }
            let sub: i64 = if a[i - 1] == b[j - 1] { c.match_score as i64 } else { c.mismatch_penalty as i64 };
            let diag = prev[j - 1] + sub;
            let up = prev[j] + c.gap_penalty as i64;
            let left = cur[j - 1] + c.gap_penalty as i64;
            let mut v: i64 = 0;
            if left > v {
                v = left;
            }
            let w = if up >= diag { up } else { diag };
            if w > v {
                v = w;
            }
            assert(v == sw_cell(a@, b@, *c, i as nat, j as nat));
            cur.push(v);
            proof {
                if j == 1 {
                    assert(sw_upto(a@, b@, *c, i as nat, 0) == sw_upto(a@, b@, *c, (i - 1) as nat, m as nat));
                }
            }
            if v > best {
                best = v;
            }
            j += 1;
        }
        proof {
            if m == 0 {
                assert(sw_upto(a@, b@, *c, i as nat, 0) == sw_upto(a@, b@, *c, (i - 1) as nat, m as nat));
            }
        }
        prev = cur;
        i += 1;
    }
    best
}


/// Cell `(i, j)` of the global-alignment matrix of `a` and `b`.
pub open spec fn nw_cell(a: Seq<char>, b: Seq<char>, c: Config, i: nat, j: nat) -> int
    decreases i + j,
{
    if i == 0 {
        j * c.gap_penalty
    } else if j == 0 {
        i * c.gap_penalty
    } else {
        max2(
            nw_cell(a, b, c, i, (j - 1) as nat) + c.gap_penalty,
            max2(
                nw_cell(a, b, c, (i - 1) as nat, j) + c.gap_penalty,
                nw_cell(a, b, c, (i - 1) as nat, (j - 1) as nat) + c.substitution(
                    a[i - 1],
                    b[j - 1],
                ),
            ),
        )
    }
}

/// The raw global-alignment score: the last cell of the matrix.
pub open spec fn nw_raw(a: Seq<char>, b: Seq<char>, c: Config) -> int {
    nw_cell(a, b, c, a.len(), b.len())
}

/// The normalized global-alignment score of `a` and `b`, over `UNIT`.
///
/// A positive raw score is set against the best one, a full match of the
/// longer length; a negative one against the worst one, the smallest
/// parameter at every position of the longer length, and keeps its sign.
/// Both go through triangular numbers, as the local score does.
pub open spec fn nw_score(a: Seq<char>, b: Seq<char>, c: Config) -> int {
    let r = nw_raw(a, b, c);
    let longer = max2(a.len() as int, b.len() as int);
    if r > 0 {
        scaled_ratio(r, longer * c.match_score)
    } else if r == 0 {
        0
    } else {
        -scaled_ratio(-r, longer * c.worst_step())
    }
}

proof fn lemma_nw_cell_bounds(a: Seq<char>, b: Seq<char>, c: Config, i: nat, j: nat)
    requires
        c.valid_scoring(),
        i <= a.len(),
        j <= b.len(),
    ensures
        -(c.worst_step() * max2(i as int, j as int)) <= nw_cell(a, b, c, i, j) <= c.match_score * min2(i as int, j as int),
    decreases i + j,
{
    let w = c.worst_step();
    assert(w >= 0 && w >= -c.gap_penalty && w >= -c.mismatch_penalty);
    if i == 0 {
        assert(j * c.gap_penalty <= 0 && j * c.gap_penalty >= -(w * j)) by (nonlinear_arith)
            requires c.gap_penalty <= 0, w >= -c.gap_penalty;
    } else if j == 0 {
        assert(i * c.gap_penalty <= 0 && i * c.gap_penalty >= -(w * i)) by (nonlinear_arith)
            requires c.gap_penalty <= 0, w >= -c.gap_penalty;
    } else {
        lemma_nw_cell_bounds(a, b, c, i, (j - 1) as nat);
        lemma_nw_cell_bounds(a, b, c, (i - 1) as nat, j);
        lemma_nw_cell_bounds(a, b, c, (i - 1) as nat, (j - 1) as nat);
        assert(c.match_score * min2(i as int, (j - 1) as int) <= c.match_score * min2(i as int, j as int)) by (nonlinear_arith)
            requires c.match_score > 0;
        assert(c.match_score * min2((i - 1) as int, j as int) <= c.match_score * min2(i as int, j as int)) by (nonlinear_arith)
            requires c.match_score > 0;
        assert(c.match_score * min2((i - 1) as int, (j - 1) as int) + c.match_score == c.match_score * min2(i as int, j as int)) by (nonlinear_arith)
            requires i > 0, j > 0;
        assert(-(w * max2((i - 1) as int, (j - 1) as int)) - w == -(w * max2(i as int, j as int))) by (nonlinear_arith)
            requires i > 0, j > 0;
    }
}

/// Scores how well the whole of `seq_1` matches the whole of `seq_2`
/// (global alignment), normalized into `-UNIT..=UNIT`.
pub fn needleman_wunsch(seq_1: &str, seq_2: &str, config: &Config) -> (r: i64)
    requires
        config.valid_scoring(),
        seq_1@.len() <= MAX_LEN,
        seq_2@.len() <= MAX_LEN,
    ensures
        r == nw_score(seq_1@, seq_2@, *config),
        -UNIT <= r <= UNIT,
        (r > 0) == (nw_raw(seq_1@, seq_2@, *config) > 0),
        (r < 0) == (nw_raw(seq_1@, seq_2@, *config) < 0),
        seq_1@ == seq_2@ && seq_1@.len() > 0 ==> r == UNIT,
        seq_1@.len() == 0 && seq_2@.len() == 0 ==> r == 0,
{
    let a = chars_of(seq_1);
    let b = chars_of(seq_2);
    let raw = nw_raw_exec(&a, &b, config);
    let longer = if a.len() >= b.len() { a.len() } else { b.len() };
    let c = config;
    proof {
        lemma_nw_cell_bounds(a@, b@, *c, a@.len(), b@.len());
        assert(max2(a@.len() as int, b@.len() as int) == longer);
        assert(min2(a@.len() as int, b@.len() as int) <= longer);
        assert(c.match_score * min2(a@.len() as int, b@.len() as int) <= longer * c.match_score) by (nonlinear_arith)
            requires c.match_score > 0, min2(a@.len() as int, b@.len() as int) <= longer;
        assert(longer * c.match_score <= 0x7FFF_FFFF * 0x8000) by (nonlinear_arith)
            requires longer <= 0x7FFF_FFFF, c.match_score <= 0x8000, c.match_score > 0;
        assert(longer * c.worst_step() <= 0x7FFF_FFFF * 0x8000) by (nonlinear_arith)
            requires longer <= 0x7FFF_FFFF, c.worst_step() <= 0x8000, c.worst_step() >= 0;
        assert(c.worst_step() * longer == longer * c.worst_step()) by (nonlinear_arith);
        if a@ == b@ && a@.len() > 0 {
            lemma_nw_self_is_one(a@, *c);
        }
        if a@.len() == 0 && b@.len() == 0 {
            assert(a@ =~= Seq::<char>::empty() && b@ =~= Seq::<char>::empty());
            lemma_empty_scores_zero(b@, *c);
        }
    }
    if raw > 0 {
        let n = (longer as u64) * (c.match_score as u64);
        scaled_ratio_exec(raw as u64, n)
    } else if raw == 0 {
        0
    } else {
        let w: i64 = if c.mismatch_penalty < c.gap_penalty { c.mismatch_penalty as i64 } else { c.gap_penalty as i64 };
        let worst: u64 = if (c.match_score as i64) < w { c.match_score as u64 } else { (-w) as u64 };
        assert(worst == c.worst_step());
        let n = (longer as u64) * worst;
        -scaled_ratio_exec((-raw) as u64, n)
    }
}

fn nw_raw_exec(a: &Vec<char>, b: &Vec<char>, c: &Config) -> (r: i64)
    requires
        c.valid_scoring(),
        a@.len() <= MAX_LEN,
        b@.len() <= MAX_LEN,
    ensures
        r == nw_raw(a@, b@, *c),
{
    let mtx = nw_matrix(a, b, c);
    mtx[a.len()][b.len()]
}

/// The whole global-alignment matrix of `a` and `b`.
fn nw_matrix(a: &Vec<char>, b: &Vec<char>, c: &Config) -> (mtx: Vec<Vec<i64>>)
    requires
        c.valid_scoring(),
        a@.len() <= MAX_LEN,
        b@.len() <= MAX_LEN,
    ensures
        mtx@.len() == a@.len() + 1,
        forall|i: int| 0 <= i <= a@.len() ==> (#[trigger] mtx@[i])@.len() == b@.len() + 1,
        forall|i: int, j: int| 0 <= i <= a@.len() && 0 <= j <= b@.len() ==> (#[trigger] mtx@[i]@[j]) == nw_cell(a@, b@, *c, i as nat, j as nat),
{
    let n = a.len();
    let m = b.len();
    let gap = c.gap_penalty as i64;
    let mut prev: Vec<i64> = Vec::new();
    let mut k: usize = 0;
    while k <= m
        invariant
            k <= m + 1,
            m == b@.len(),
            m <= MAX_LEN,
            gap == c.gap_penalty,
            c.valid_scoring(),
            prev@.len() == k,
            forall|x: int| 0 <= x < k ==> prev@[x] == nw_cell(a@, b@, *c, 0, x as nat),
        decreases m + 1 - k,
    {
        assert(k * gap >= -0x8000 * 0x7FFF_FFFF && k * gap <= 0) by (nonlinear_arith)
            requires k <= 0x7FFF_FFFF, gap >= -0x8000, gap <= 0;
        prev.push((k as i64) * gap);
        k += 1;
    }
    let mut mtx: Vec<Vec<i64>> = Vec::new();
    mtx.push(prev.clone());
    let mut i: usize = 1;
    while i <= n
        invariant
            1 <= i <= n + 1,
            n == a@.len(),
            m == b@.len(),
            n <= MAX_LEN,
            m <= MAX_LEN,
            gap == c.gap_penalty,
            c.valid_scoring(),
            prev@.len() == m + 1,
            forall|x: int| 0 <= x <= m ==> prev@[x] == nw_cell(a@, b@, *c, (i - 1) as nat, x as nat),
            mtx@.len() == i,
            forall|y: int| 0 <= y < i ==> (#[trigger] mtx@[y])@.len() == m + 1,
            forall|y: int, x: int| 0 <= y < i && 0 <= x <= m ==> (#[trigger] mtx@[y]@[x]) == nw_cell(a@, b@, *c, y as nat, x as nat),
        decreases n + 1 - i,
    {
        let mut cur: Vec<i64> = Vec::new();
        assert(i * gap >= -0x8000 * 0x7FFF_FFFF && i * gap <= 0) by (nonlinear_arith)
            requires i <= 0x7FFF_FFFF, gap >= -0x8000, gap <= 0;
        cur.push((i as i64) * gap);
        let mut j: usize = 1;
        while j <= m
            invariant
                1 <= i <= n,
                1 <= j <= m + 1,
                n == a@.len(),
                m == b@.len(),
                n <= MAX_LEN,
                m <= MAX_LEN,
                gap == c.gap_penalty,
                c.valid_scoring(),
                prev@.len() == m + 1,
                forall|x: int| 0 <= x <= m ==> prev@[x] == nw_cell(a@, b@, *c, (i - 1) as nat, x as nat),
                cur@.len() == j,
                forall|x: int| 0 <= x < j ==> cur@[x] == nw_cell(a@, b@, *c, i as nat, x as nat),
            decreases m + 1 - j,
        {
            proof {
                lemma_nw_step_fits(a@, b@, *c, i as nat, j as nat);
            }
            let sub: i64 = if a[i - 1] == b[j - 1] { c.match_score as i64 } else { c.mismatch_penalty as i64 };
            let diag = prev[j - 1] + sub;
            let up = prev[j] + gap;
            let left = cur[j - 1] + gap;
            let w = if up >= diag { up } else { diag };
            let v = if left >= w { left } else { w };
            assert(v == nw_cell(a@, b@, *c, i as nat, j as nat));
            cur.push(v);
            j += 1;
        }
        let ghost before = mtx@;
        mtx.push(cur.clone());
        proof {
            assert forall|y: int, x: int| 0 <= y < i + 1 && 0 <= x <= m implies (#[trigger] mtx@[y]@[x]) == nw_cell(a@, b@, *c, y as nat, x as nat) by {
                if y < i {
                    assert(mtx@[y] == before[y]);
                }
            }
        }
        prev = cur;
        i += 1;
    }
    mtx
}

proof fn lemma_nw_step_fits(a: Seq<char>, b: Seq<char>, c: Config, i: nat, j: nat)
    requires
        c.valid_scoring(),
        1 <= i <= a.len(),
        1 <= j <= b.len(),
        a.len() <= MAX_LEN,
        b.len() <= MAX_LEN,
    ensures
        -0x8000 * 0x7FFF_FFFF <= nw_cell(a, b, c, i, (j - 1) as nat) <= 0x8000 * 0x7FFF_FFFF,
        -0x8000 * 0x7FFF_FFFF <= nw_cell(a, b, c, (i - 1) as nat, j) <= 0x8000 * 0x7FFF_FFFF,
        -0x8000 * 0x7FFF_FFFF <= nw_cell(a, b, c, (i - 1) as nat, (j - 1) as nat) <= 0x8000 * 0x7FFF_FFFF,
{
    lemma_nw_cell_bounds(a, b, c, i, (j - 1) as nat);
    lemma_nw_cell_bounds(a, b, c, (i - 1) as nat, j);
    lemma_nw_cell_bounds(a, b, c, (i - 1) as nat, (j - 1) as nat);
    let w = c.worst_step();
    let ms = c.match_score as int;
    assert forall|x: int, y: int| 0 <= x <= 0x7FFF_FFFF && 0 <= y <= 0x7FFF_FFFF implies
        ms * min2(x, y) <= 0x8000 * 0x7FFF_FFFF && w * max2(x, y) <= 0x8000 * 0x7FFF_FFFF by {
        assert(ms * min2(x, y) <= 0x8000 * 0x7FFF_FFFF) by (nonlinear_arith)
            requires 0 < ms <= 0x8000, 0 <= min2(x, y) <= 0x7FFF_FFFF;
        assert(w * max2(x, y) <= 0x8000 * 0x7FFF_FFFF) by (nonlinear_arith)
            requires 0 <= w <= 0x8000, 0 <= max2(x, y) <= 0x7FFF_FFFF;
    }
    assert(ms * min2(i as int, (j - 1) as int) <= 0x8000 * 0x7FFF_FFFF);
    assert(w * max2(i as int, (j - 1) as int) <= 0x8000 * 0x7FFF_FFFF);
    assert(ms * min2((i - 1) as int, j as int) <= 0x8000 * 0x7FFF_FFFF);
    assert(w * max2((i - 1) as int, j as int) <= 0x8000 * 0x7FFF_FFFF);
    assert(ms * min2((i - 1) as int, (j - 1) as int) <= 0x8000 * 0x7FFF_FFFF);
    assert(w * max2((i - 1) as int, (j - 1) as int) <= 0x8000 * 0x7FFF_FFFF);
}

/// The cell that the traceback moves to from `(i, j)`, both positive: the
/// diagonal where the characters match, else left where the left cell is
/// strictly greater than the one above, else up.
pub open spec fn walk_step(a: Seq<char>, b: Seq<char>, c: Config, i: nat, j: nat) -> (nat, nat) {
    if a[i - 1] == b[j - 1] {
        ((i - 1) as nat, (j - 1) as nat)
    } else if nw_cell(a, b, c, i, (j - 1) as nat) > nw_cell(a, b, c, (i - 1) as nat, j) {
        (i, (j - 1) as nat)
    } else {
        ((i - 1) as nat, j)
    }
}

/// The cells the traceback visits after `(i, j)`, up to the first one on
/// the top row or the left column.
pub open spec fn walk_from(a: Seq<char>, b: Seq<char>, c: Config, i: nat, j: nat) -> Seq<(nat, nat)>
    decreases i + j,
{
    if i == 0 || j == 0 {
        Seq::empty()
    } else {
        let next = walk_step(a, b, c, i, j);
        seq![next] + walk_from(a, b, c, next.0, next.1)
    }
}

/// The pairs of `v` as natural numbers.
pub open spec fn nat_pairs(v: Seq<(usize, usize)>) -> Seq<(nat, nat)> {
    v.map_values(|p: (usize, usize)| (p.0 as nat, p.1 as nat))
}

/// The traceback of the global alignment of `seq_1` and `seq_2`, for
/// diagnostics: the cells visited from the last one toward the origin,
/// ending on the first that lies on the top row or the left column.
pub fn needleman_wunsch_traceback(seq_1: &str, seq_2: &str, config: &Config) -> (path: Vec<(usize, usize)>)
    requires
        config.valid_scoring(),
        seq_1@.len() <= MAX_LEN,
        seq_2@.len() <= MAX_LEN,
    ensures
        nat_pairs(path@) == walk_from(seq_1@, seq_2@, *config, seq_1@.len(), seq_2@.len()),
{
    let a = chars_of(seq_1);
    let b = chars_of(seq_2);
    let mtx = nw_matrix(&a, &b, config);
    let ghost full = walk_from(a@, b@, *config, a@.len(), b@.len());
    let mut path: Vec<(usize, usize)> = Vec::new();
    let mut i = a.len();
    let mut j = b.len();
    while i != 0 && j != 0
        invariant
            i <= a@.len(),
            j <= b@.len(),
            mtx@.len() == a@.len() + 1,
            forall|y: int| 0 <= y <= a@.len() ==> (#[trigger] mtx@[y])@.len() == b@.len() + 1,
            forall|y: int, x: int| 0 <= y <= a@.len() && 0 <= x <= b@.len() ==> (#[trigger] mtx@[y]@[x]) == nw_cell(a@, b@, *config, y as nat, x as nat),
            nat_pairs(path@) + walk_from(a@, b@, *config, i as nat, j as nat) == full,
        decreases i + j,
    {
        let ghost rest = walk_from(a@, b@, *config, i as nat, j as nat);
        let ghost before = path@;
        if a[i - 1] == b[j - 1] {
            i -= 1;
            j -= 1;
        } else if mtx[i][j - 1] > mtx[i - 1][j] {
            j -= 1;
        } else {
            i -= 1;
        }
        path.push((i, j));
        proof {
            assert(rest == seq![(i as nat, j as nat)] + walk_from(a@, b@, *config, i as nat, j as nat));
            assert(nat_pairs(path@) =~= nat_pairs(before).push((i as nat, j as nat)));
            assert(nat_pairs(path@) + walk_from(a@, b@, *config, i as nat, j as nat) =~= nat_pairs(before) + rest);
        }
    }
    assert(walk_from(a@, b@, *config, i as nat, j as nat) =~= Seq::<(nat, nat)>::empty());
    assert(nat_pairs(path@) =~= full);
    path
}

proof fn lemma_sw_diagonal(s: Seq<char>, c: Config, k: nat)
    requires
        c.valid_scoring(),
        k <= s.len(),
    ensures
        sw_cell(s, s, c, k, k) >= c.match_score * k,
    decreases k,
{
    if k > 0 {
        let j = (k - 1) as nat;
        lemma_sw_diagonal(s, c, j);
        assert(c.substitution(s[k - 1], s[k - 1]) == c.match_score);
        assert(sw_cell(s, s, c, k, k) >= sw_cell(s, s, c, j, j) + c.match_score);
        assert(c.match_score * j + c.match_score == c.match_score * k) by (nonlinear_arith)
            requires k == j + 1;
    } else {
        assert(c.match_score * k == 0) by (nonlinear_arith)
            requires k == 0;
    }
}

proof fn lemma_nw_diagonal(s: Seq<char>, c: Config, k: nat)
    requires
        c.valid_scoring(),
        k <= s.len(),
    ensures
        nw_cell(s, s, c, k, k) >= c.match_score * k,
    decreases k,
{
    if k > 0 {
        let j = (k - 1) as nat;
        lemma_nw_diagonal(s, c, j);
        assert(c.substitution(s[k - 1], s[k - 1]) == c.match_score);
        assert(nw_cell(s, s, c, k, k) >= nw_cell(s, s, c, j, j) + c.match_score);
        assert(c.match_score * j + c.match_score == c.match_score * k) by (nonlinear_arith)
            requires k == j + 1;
    } else {
        assert(c.match_score * k == 0) by (nonlinear_arith)
            requires k == 0;
    }
}

/// A non-empty string aligned locally with itself scores exactly one.
pub proof fn lemma_sw_self_is_one(s: Seq<char>, c: Config)
    requires
        c.valid_scoring(),
        s.len() > 0,
    ensures
        sw_score(s, s, c) == UNIT,
{
    let l = s.len();
    lemma_sw_diagonal(s, c, l);
    lemma_sw_upto_bounds(s, s, c, l, l);
    assert(sw_upto(s, s, c, l, l) >= sw_cell(s, s, c, l, l));
    assert(c.match_score * l == l * c.match_score) by (nonlinear_arith);
    assert(l * c.match_score >= 1) by (nonlinear_arith)
        requires l >= 1, c.match_score >= 1;
    lemma_scaled_ratio_bounds(l * c.match_score, l * c.match_score);
}

/// A non-empty string aligned globally with itself scores exactly one.
pub proof fn lemma_nw_self_is_one(s: Seq<char>, c: Config)
    requires
        c.valid_scoring(),
        s.len() > 0,
    ensures
        nw_score(s, s, c) == UNIT,
{
    let l = s.len();
    lemma_nw_diagonal(s, c, l);
    lemma_nw_cell_bounds(s, s, c, l, l);
    assert(c.match_score * l == l * c.match_score) by (nonlinear_arith);
    assert(l * c.match_score >= 1) by (nonlinear_arith)
        requires l >= 1, c.match_score >= 1;
    lemma_scaled_ratio_bounds(l * c.match_score, l * c.match_score);
}

/// An empty string has no local similarity with anything, and two empty
/// strings score zero globally.
pub proof fn lemma_empty_scores_zero(b: Seq<char>, c: Config)
    ensures
        sw_score(Seq::<char>::empty(), b, c) == 0,
        nw_score(Seq::<char>::empty(), Seq::<char>::empty(), c) == 0,
{
    let e = Seq::<char>::empty();
    assert(sw_upto(e, b, c, 0, b.len()) == 0);
    assert(min2(0, b.len() as int) == 0);
    assert(0 * c.match_score == 0);
    assert(nw_cell(e, e, c, 0, 0) == 0);
}

/// The local score always lies in `0..=UNIT`, the global one in `-UNIT..=UNIT`.
pub proof fn lemma_scores_in_range(a: Seq<char>, b: Seq<char>, c: Config)
    requires
        c.valid_scoring(),
    ensures
        0 <= sw_score(a, b, c) <= UNIT,
        -UNIT <= nw_score(a, b, c) <= UNIT,
{
    let shorter = min2(a.len() as int, b.len() as int);
    let longer = max2(a.len() as int, b.len() as int);
    lemma_sw_upto_bounds(a, b, c, a.len(), b.len());
    assert(c.match_score * shorter == shorter * c.match_score) by (nonlinear_arith);
    lemma_scaled_ratio_bounds(sw_raw(a, b, c), shorter * c.match_score);
    lemma_nw_cell_bounds(a, b, c, a.len(), b.len());
    let r = nw_raw(a, b, c);
    if r > 0 {
        assert(c.match_score * shorter <= longer * c.match_score) by (nonlinear_arith)
            requires c.match_score > 0, shorter <= longer;
        lemma_scaled_ratio_bounds(r, longer * c.match_score);
    } else if r < 0 {
        assert(c.worst_step() * longer == longer * c.worst_step()) by (nonlinear_arith);
        lemma_scaled_ratio_bounds(-r, longer * c.worst_step());
    }
}

} // verus!
