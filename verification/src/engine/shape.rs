//! Gomoku shape recognition and scoring.
//!
//! A line is encoded as ASCII text where `O` is a friendly stone, `X` an opponent
//! stone or the board edge, and `_` an empty intersection. Each line is padded with `X`
//! on both ends, so that the edge of the board closes patterns like an opponent stone.
//!
//! A line's score is the weighted sum of its pattern occurrences (overlapping windowed
//! matches). Higher patterns dwarf lower ones, so counting a four inside a five as
//! well does no harm.
use vstd::prelude::*;
use vstd::string::StringSliceAdditionalSpecFns;

verus! {

pub const SCORE_FIVE: i64 = 1_000_000;

pub const SCORE_OPEN_FOUR: i64 = 100_000;

pub const SCORE_FOUR: i64 = 10_000;

pub const SCORE_OPEN_THREE: i64 = 1_000;

pub const SCORE_THREE: i64 = 100;

pub const SCORE_OPEN_TWO: i64 = 100;

pub const SCORE_TWO: i64 = 10;

/// `O`: a friendly stone.
pub const MINE: u8 = 79;

/// `X`: an opponent stone or the board edge.
pub const THEIRS: u8 = 88;

/// `_`: an empty intersection.
pub const EMPTY: u8 = 95;

/// `pat` occurs in `line` starting at byte `i`.
pub open spec fn matches_at(line: Seq<u8>, pat: Seq<u8>, i: int) -> bool {
    line.subrange(i, i + pat.len()) == pat
}

/// Occurrences of `pat` in `line` that start before byte `n`.
pub open spec fn count_upto(line: Seq<u8>, pat: Seq<u8>, n: int) -> nat
    decreases n,
{
    if n <= 0 {
        0
    } else {
        count_upto(line, pat, n - 1) + if matches_at(line, pat, n - 1) {
            1nat
        } else {
            0nat
        }
    }
}

/// Overlapping occurrences of a non-empty `pat` in `line`.
pub open spec fn count_spec(line: Seq<u8>, pat: Seq<u8>) -> nat {
    if pat.len() == 0 || pat.len() > line.len() {
        0
    } else {
        count_upto(line, pat, line.len() - pat.len() + 1)
    }
}

/// Occurrences of all the patterns of a group, added up.
pub open spec fn group_count(line: Seq<u8>, pats: Seq<Seq<u8>>) -> nat
    decreases pats.len(),
{
    if pats.len() == 0 {
        0
    } else {
        group_count(line, pats.drop_last()) + count_spec(line, pats.last())
    }
}

pub open spec fn five_pattern() -> Seq<u8> {
    seq![MINE, MINE, MINE, MINE, MINE]
}

pub open spec fn open_four_pattern() -> Seq<u8> {
    seq![EMPTY, MINE, MINE, MINE, MINE, EMPTY]
}

/// Closed fours and broken fours: one move from five.
pub open spec fn four_patterns() -> Seq<Seq<u8>> {
    seq![
        seq![THEIRS, MINE, MINE, MINE, MINE, EMPTY],
        seq![EMPTY, MINE, MINE, MINE, MINE, THEIRS],
        seq![MINE, EMPTY, MINE, MINE, MINE],
        seq![MINE, MINE, MINE, EMPTY, MINE],
        seq![MINE, MINE, EMPTY, MINE, MINE],
    ]
}

pub open spec fn open_three_patterns() -> Seq<Seq<u8>> {
    seq![
        seq![EMPTY, MINE, MINE, MINE, EMPTY],
        seq![EMPTY, MINE, MINE, EMPTY, MINE, EMPTY],
        seq![EMPTY, MINE, EMPTY, MINE, MINE, EMPTY],
    ]
}

/// Threes with one or both ends restricted.
pub open spec fn three_patterns() -> Seq<Seq<u8>> {
    seq![
        seq![THEIRS, MINE, MINE, MINE, EMPTY, EMPTY],
        seq![EMPTY, EMPTY, MINE, MINE, MINE, THEIRS],
        seq![THEIRS, MINE, MINE, EMPTY, MINE, EMPTY],
        seq![EMPTY, MINE, EMPTY, MINE, MINE, THEIRS],
        seq![THEIRS, MINE, EMPTY, MINE, MINE, EMPTY],
        seq![EMPTY, MINE, MINE, EMPTY, MINE, THEIRS],
        seq![THEIRS, MINE, MINE, MINE, EMPTY, THEIRS],
        seq![THEIRS, EMPTY, MINE, MINE, MINE, THEIRS],
    ]
}

pub open spec fn open_two_patterns() -> Seq<Seq<u8>> {
    seq![
        seq![EMPTY, EMPTY, MINE, MINE, EMPTY, EMPTY],
        seq![EMPTY, MINE, EMPTY, MINE, EMPTY],
        seq![EMPTY, MINE, MINE, EMPTY],
    ]
}

pub open spec fn two_patterns() -> Seq<Seq<u8>> {
    seq![
        seq![THEIRS, MINE, MINE, EMPTY, EMPTY],
        seq![EMPTY, EMPTY, MINE, MINE, THEIRS],
        seq![THEIRS, MINE, EMPTY, MINE, EMPTY],
        seq![EMPTY, MINE, EMPTY, MINE, THEIRS],
    ]
}

/// The score of an encoded line: each pattern's occurrences times its weight.
pub open spec fn score_spec(line: Seq<u8>) -> int {
    SCORE_FIVE * count_spec(line, five_pattern()) + SCORE_OPEN_FOUR * count_spec(
        line,
        open_four_pattern(),
    ) + SCORE_FOUR * group_count(line, four_patterns()) + SCORE_OPEN_THREE * group_count(
        line,
        open_three_patterns(),
    ) + SCORE_THREE * group_count(line, three_patterns()) + SCORE_OPEN_TWO * group_count(
        line,
        open_two_patterns(),
    ) + SCORE_TWO * group_count(line, two_patterns())
}

/// Every occurrence count that scoring a line keeps in a `u32` fits in one.
pub open spec fn score_fits(line: Seq<u8>) -> bool {
    &&& count_spec(line, five_pattern()) <= u32::MAX
    &&& count_spec(line, open_four_pattern()) <= u32::MAX
    &&& group_count(line, four_patterns()) <= u32::MAX
    &&& group_count(line, open_three_patterns()) <= u32::MAX
    &&& group_count(line, three_patterns()) <= u32::MAX
    &&& group_count(line, open_two_patterns()) <= u32::MAX
    &&& group_count(line, two_patterns()) <= u32::MAX
}

pub proof fn lemma_count_upto_mono(line: Seq<u8>, pat: Seq<u8>, n: int, m: int)
    requires
        n <= m,
    ensures
        count_upto(line, pat, n) <= count_upto(line, pat, m),
    decreases m - n,
{
    if n < m {
        lemma_count_upto_mono(line, pat, n, m - 1);
    }
}

pub proof fn lemma_count_upto_le(line: Seq<u8>, pat: Seq<u8>, n: int)
    ensures
        count_upto(line, pat, n) <= if n < 0 {
            0
        } else {
            n
        },
    decreases n,
{
    if n > 0 {
        lemma_count_upto_le(line, pat, n - 1);
    }
}

/// A pattern occurs at most once per byte of the line.
pub proof fn lemma_count_le_len(line: Seq<u8>, pat: Seq<u8>)
    ensures
        count_spec(line, pat) <= line.len(),
{
    if !(pat.len() == 0 || pat.len() > line.len()) {
        lemma_count_upto_le(line, pat, line.len() - pat.len() + 1);
    }
}

pub proof fn lemma_group_le(line: Seq<u8>, pats: Seq<Seq<u8>>)
    ensures
        group_count(line, pats) <= pats.len() * line.len(),
    decreases pats.len(),
{
    if pats.len() > 0 {
        lemma_group_le(line, pats.drop_last());
        lemma_count_le_len(line, pats.last());
        assert((pats.len() - 1) * line.len() + line.len() == pats.len() * line.len()) by (nonlinear_arith);
    }
}

/// Lines of ordinary length can always be scored, and their score is bounded.
pub proof fn lemma_score_bounds(line: Seq<u8>)
    requires
        line.len() <= 1000,
    ensures
        score_fits(line),
        0 <= score_spec(line) <= 1_154_140 * line.len(),
{
    let n = line.len();
    lemma_count_le_len(line, five_pattern());
    lemma_count_le_len(line, open_four_pattern());
    lemma_group_le(line, four_patterns());
    lemma_group_le(line, open_three_patterns());
    lemma_group_le(line, three_patterns());
    lemma_group_le(line, open_two_patterns());
    lemma_group_le(line, two_patterns());
    let a = count_spec(line, five_pattern());
    let b = count_spec(line, open_four_pattern());
    let c = group_count(line, four_patterns());
    let d = group_count(line, open_three_patterns());
    let e = group_count(line, three_patterns());
    let f = group_count(line, open_two_patterns());
    let g = group_count(line, two_patterns());
    assert(1_000_000 * a <= 1_000_000 * n) by (nonlinear_arith)
        requires
            a <= n,
    ;
    assert(100_000 * b <= 100_000 * n) by (nonlinear_arith)
        requires
            b <= n,
    ;
    assert(10_000 * c <= 10_000 * 5 * n) by (nonlinear_arith)
        requires
            c <= 5 * n,
    ;
    assert(1_000 * d <= 1_000 * 3 * n) by (nonlinear_arith)
        requires
            d <= 3 * n,
    ;
    assert(100 * e <= 100 * 8 * n) by (nonlinear_arith)
        requires
            e <= 8 * n,
    ;
    assert(100 * f <= 100 * 3 * n) by (nonlinear_arith)
        requires
            f <= 3 * n,
    ;
    assert(10 * g <= 10 * 4 * n) by (nonlinear_arith)
        requires
            g <= 4 * n,
    ;
}

/// Whether `pat` occurs in `line` at byte `i`.
fn matches_here(line: &[u8], pat: &[u8], i: usize) -> (r: bool)
    requires
        i + pat@.len() <= line@.len(),
    ensures
        r == matches_at(line@, pat@, i as int),
{
    let n = pat.len();
    let len = line.len();
    let mut j: usize = 0;
    while j < n
        invariant
            n == pat@.len(),
            len == line@.len(),
            i + n <= line@.len(),
            j <= n,
            forall|t: int| 0 <= t < j ==> line@[i + t] == pat@[t],
        decreases n - j,
    {
        if line[i + j] != pat[j] {
            assert(line@.subrange(i as int, i + n)[j as int] != pat@[j as int]);
            return false;
        }
        j = j + 1;
    }
    assert(line@.subrange(i as int, i + n) =~= pat@);
    true
}

/// Overlapping occurrences of `pat` in `line`, as bytes.
pub fn count_bytes(line: &[u8], pat: &[u8]) -> (r: u32)
    requires
        count_spec(line@, pat@) <= u32::MAX,
    ensures
        r == count_spec(line@, pat@),
{
    if pat.len() == 0 || pat.len() > line.len() {
        return 0;
    }
    let mut count: u32 = 0;
    let len = line.len();
    let last = len - pat.len();
    let mut i: usize = 0;
    while i <= last
        invariant
            len == line@.len(),
            last < len,
            last == line@.len() - pat@.len(),
            0 < pat@.len() <= line@.len(),
            i <= last + 1,
            count == count_upto(line@, pat@, i as int),
            count_upto(line@, pat@, last + 1) <= u32::MAX,
        decreases last + 1 - i,
    {
        proof {
            lemma_count_upto_mono(line@, pat@, i + 1, last + 1);
        }
        if matches_here(line, pat, i) {
            count = count + 1;
        }
        i = i + 1;
    }
    count
}

/// Count overlapping occurrences of `pat` as a substring of `line`.
pub fn count_pattern(line: &str, pat: &str) -> (r: u32)
    requires
        count_spec(line.spec_bytes(), pat.spec_bytes()) <= u32::MAX,
    ensures
        r == count_spec(line.spec_bytes(), pat.spec_bytes()),
{
    count_bytes(line.as_bytes(), pat.as_bytes())
}

/// Occurrences of all patterns of a group in `line`, added up.
fn count_group(line: &[u8], pats: &Vec<Vec<u8>>, Ghost(spec_pats): Ghost<Seq<Seq<u8>>>) -> (r: u32)
    requires
        pats@.len() == spec_pats.len(),
        forall|k: int| 0 <= k < pats@.len() ==> (#[trigger] pats@[k])@ == spec_pats[k],
        group_count(line@, spec_pats) <= u32::MAX,
    ensures
        r == group_count(line@, spec_pats),
{
    let mut total: u32 = 0;
    let n = pats.len();
    let mut k: usize = 0;
    while k < n
        invariant
            n == pats@.len(),
            n == spec_pats.len(),
            forall|t: int| 0 <= t < pats@.len() ==> (#[trigger] pats@[t])@ == spec_pats[t],
            group_count(line@, spec_pats) <= u32::MAX,
            k <= n,
            total == group_count(line@, spec_pats.take(k as int)),
        decreases n - k,
    {
        proof {
            assert(spec_pats.take(k + 1).drop_last() =~= spec_pats.take(k as int));
            lemma_group_prefix_le(line@, spec_pats, k + 1);
            lemma_count_le_group(line@, spec_pats.take(k + 1));
        }
        let c = count_bytes(line, pats[k].as_slice());
        total = total + c;
        k = k + 1;
    }
    assert(spec_pats.take(n as int) =~= spec_pats);
    total
}

proof fn lemma_count_le_group(line: Seq<u8>, pats: Seq<Seq<u8>>)
    requires
        pats.len() > 0,
    ensures
        count_spec(line, pats.last()) <= group_count(line, pats),
{
}

proof fn lemma_group_prefix_le(line: Seq<u8>, pats: Seq<Seq<u8>>, k: int)
    requires
        0 <= k <= pats.len(),
    ensures
        group_count(line, pats.take(k)) <= group_count(line, pats),
    decreases pats.len() - k,
{
    if k < pats.len() {
        lemma_group_prefix_le(line, pats, k + 1);
        assert(pats.take(k + 1).drop_last() =~= pats.take(k));
        assert(group_count(line, pats.take(k + 1)) == group_count(line, pats.take(k)) + count_spec(
            line,
            pats.take(k + 1).last(),
        ));
    } else {
        assert(pats.take(k) =~= pats);
    }
}

/// The pattern table, built once and shared by the lines scored with it.
pub struct Patterns {
    five: Vec<u8>,
    open_four: Vec<u8>,
    four: Vec<Vec<u8>>,
    open_three: Vec<Vec<u8>>,
    three: Vec<Vec<u8>>,
    open_two: Vec<Vec<u8>>,
    two: Vec<Vec<u8>>,
}

/// `pats` holds, in order, the patterns of `spec_pats`.
pub open spec fn holds_group(pats: Seq<Vec<u8>>, spec_pats: Seq<Seq<u8>>) -> bool {
    &&& pats.len() == spec_pats.len()
    &&& forall|k: int| 0 <= k < pats.len() ==> (#[trigger] pats[k])@ == spec_pats[k]
}

impl Patterns {
    /// The table holds exactly the scored patterns.
    pub closed spec fn wf(&self) -> bool {
        &&& self.five@ == five_pattern()
        &&& self.open_four@ == open_four_pattern()
        &&& holds_group(self.four@, four_patterns())
        &&& holds_group(self.open_three@, open_three_patterns())
        &&& holds_group(self.three@, three_patterns())
        &&& holds_group(self.open_two@, open_two_patterns())
        &&& holds_group(self.two@, two_patterns())
    }

    pub fn new() -> (p: Patterns)
        ensures
            p.wf(),
    {
        let o = MINE;
        let x = THEIRS;
        let e = EMPTY;

        // ---- Five ----
        let five = vec![o, o, o, o, o];
        assert(five@ =~= five_pattern());

        // ---- Open four (winning next move regardless) ----
        let open_four = vec![e, o, o, o, o, e];
        assert(open_four@ =~= open_four_pattern());

        // ---- Four (closed four + broken four: forces a response) ----
        let four = vec![
            vec![x, o, o, o, o, e],
            vec![e, o, o, o, o, x],
            vec![o, e, o, o, o],
            vec![o, o, o, e, o],
            vec![o, o, e, o, o],
        ];
        assert(four@[0]@ =~= four_patterns()[0]);
        assert(four@[1]@ =~= four_patterns()[1]);
        assert(four@[2]@ =~= four_patterns()[2]);
        assert(four@[3]@ =~= four_patterns()[3]);
        assert(four@[4]@ =~= four_patterns()[4]);

        // ---- Open three (forces a response in any decent play) ----
        let open_three = vec![
            vec![e, o, o, o, e],
            vec![e, o, o, e, o, e],
            vec![e, o, e, o, o, e],
        ];
        assert(open_three@[0]@ =~= open_three_patterns()[0]);
        assert(open_three@[1]@ =~= open_three_patterns()[1]);
        assert(open_three@[2]@ =~= open_three_patterns()[2]);

        // ---- Closed three (one end blocked) ----
        let three = vec![
            vec![x, o, o, o, e, e],
            vec![e, e, o, o, o, x],
            vec![x, o, o, e, o, e],
            vec![e, o, e, o, o, x],
            vec![x, o, e, o, o, e],
            vec![e, o, o, e, o, x],
            vec![x, o, o, o, e, x],
            vec![x, e, o, o, o, x],
        ];
        assert(three@[0]@ =~= three_patterns()[0]);
        assert(three@[1]@ =~= three_patterns()[1]);
        assert(three@[2]@ =~= three_patterns()[2]);
        assert(three@[3]@ =~= three_patterns()[3]);
        assert(three@[4]@ =~= three_patterns()[4]);
        assert(three@[5]@ =~= three_patterns()[5]);
        assert(three@[6]@ =~= three_patterns()[6]);
        assert(three@[7]@ =~= three_patterns()[7]);

        // ---- Open two ----
        let open_two = vec![
            vec![e, e, o, o, e, e],
            vec![e, o, e, o, e],
            vec![e, o, o, e],
        ];
        assert(open_two@[0]@ =~= open_two_patterns()[0]);
        assert(open_two@[1]@ =~= open_two_patterns()[1]);
        assert(open_two@[2]@ =~= open_two_patterns()[2]);

        // ---- Closed two ----
        let two = vec![
            vec![x, o, o, e, e],
            vec![e, e, o, o, x],
            vec![x, o, e, o, e],
            vec![e, o, e, o, x],
        ];
        assert(two@[0]@ =~= two_patterns()[0]);
        assert(two@[1]@ =~= two_patterns()[1]);
        assert(two@[2]@ =~= two_patterns()[2]);
        assert(two@[3]@ =~= two_patterns()[3]);

        Patterns { five, open_four, four, open_three, three, open_two, two }
    }
}

/// Whether `line` holds two friendly stones or more.
fn has_two_stones(line: &[u8]) -> (r: bool)
    ensures
        r == !at_most_one_mine(line@),
{
    let n = line.len();
    let mut seen: bool = false;
    let mut first: usize = 0;
    let mut i: usize = 0;
    while i < n
        invariant
            n == line@.len(),
            i <= n,
            !seen ==> forall|t: int| 0 <= t < i ==> line@[t] != MINE,
            seen ==> first < i && line@[first as int] == MINE && forall|t: int| 0 <= t < i && t != first ==> line@[t] != MINE,
        decreases n - i,
    {
        if line[i] == MINE {
            if seen {
                assert(line@[first as int] == MINE && line@[i as int] == MINE);
                return true;
            }
            seen = true;
            first = i;
        }
        i = i + 1;
    }
    false
}

/// The score of an encoded line, given as bytes, with a prepared pattern table.
pub fn score_with(line: &[u8], pats: &Patterns) -> (r: i64)
    requires
        pats.wf(),
        score_fits(line@),
    ensures
        r == score_spec(line@),
{
    // Every pattern holds two friendly stones: a line with fewer scores nothing.
    if !has_two_stones(line) {
        proof {
            law_lone_stone_no_score(line@);
        }
        return 0;
    }
    let mut score: i64 = 0;
    let c5 = count_bytes(line, pats.five.as_slice());
    score = score + SCORE_FIVE * c5 as i64;
    let c4o = count_bytes(line, pats.open_four.as_slice());
    score = score + SCORE_OPEN_FOUR * c4o as i64;
    let c4 = count_group(line, &pats.four, Ghost(four_patterns()));
    score = score + SCORE_FOUR * c4 as i64;
    let c3o = count_group(line, &pats.open_three, Ghost(open_three_patterns()));
    score = score + SCORE_OPEN_THREE * c3o as i64;
    let c3 = count_group(line, &pats.three, Ghost(three_patterns()));
    score = score + SCORE_THREE * c3 as i64;
    let c2o = count_group(line, &pats.open_two, Ghost(open_two_patterns()));
    score = score + SCORE_OPEN_TWO * c2o as i64;
    let c2 = count_group(line, &pats.two, Ghost(two_patterns()));
    score = score + SCORE_TWO * c2 as i64;
    score
}

/// The score of an encoded line, given as bytes.
pub fn score_bytes(line: &[u8]) -> (r: i64)
    requires
        score_fits(line@),
    ensures
        r == score_spec(line@),
{
    let pats = Patterns::new();
    score_with(line, &pats)
}

/// Sum the scores of all known patterns in this encoded line.
pub fn score_line(line: &str) -> (r: i64)
    requires
        score_fits(line.spec_bytes()),
    ensures
        r == score_spec(line.spec_bytes()),
{
    score_bytes(line.as_bytes())
}

/// `pat` holds at least two friendly stones.
pub open spec fn has_two_mine(pat: Seq<u8>) -> bool {
    exists|a: int, b: int| 0 <= a < b < pat.len() && pat[a] == MINE && pat[b] == MINE
}

/// `line` holds at most one friendly stone.
pub open spec fn at_most_one_mine(line: Seq<u8>) -> bool {
    forall|a: int, b: int| 0 <= a < b < line.len() ==> !(#[trigger] line[a] == MINE && #[trigger] line[b] == MINE)
}

proof fn lemma_count_upto_zero(line: Seq<u8>, pat: Seq<u8>, n: int)
    requires
        has_two_mine(pat),
        n <= line.len() - pat.len() + 1,
        at_most_one_mine(line),
    ensures
        count_upto(line, pat, n) == 0,
    decreases n,
{
    if n > 0 {
        lemma_count_upto_zero(line, pat, n - 1);
        let (a, b) = choose|a: int, b: int| 0 <= a < b < pat.len() && pat[a] == MINE && pat[b] == MINE;
        if matches_at(line, pat, n - 1) {
            assert(line.subrange(n - 1, n - 1 + pat.len())[a] == line[n - 1 + a]);
            assert(line.subrange(n - 1, n - 1 + pat.len())[b] == line[n - 1 + b]);
        }
    }
}

proof fn lemma_group_zero(line: Seq<u8>, pats: Seq<Seq<u8>>)
    requires
        forall|k: int| 0 <= k < pats.len() ==> has_two_mine(#[trigger] pats[k]),
        at_most_one_mine(line),
    ensures
        group_count(line, pats) == 0,
    decreases pats.len(),
{
    if pats.len() > 0 {
        lemma_group_zero(line, pats.drop_last());
        assert(has_two_mine(pats[pats.len() - 1]));
        let p = pats.last();
        if !(p.len() == 0 || p.len() > line.len()) {
            lemma_count_upto_zero(line, p, line.len() - p.len() + 1);
        }
    }
}

/// A line with at most one friendly stone scores nothing: every pattern needs two.
pub proof fn law_lone_stone_no_score(line: Seq<u8>)
    requires
        at_most_one_mine(line),
    ensures
        score_spec(line) == 0,
{
    assert(five_pattern()[0] == MINE && five_pattern()[1] == MINE);
    assert(open_four_pattern()[1] == MINE && open_four_pattern()[2] == MINE);
    if line.len() >= 5 {
        lemma_count_upto_zero(line, five_pattern(), line.len() - 5 + 1);
    }
    if line.len() >= 6 {
        lemma_count_upto_zero(line, open_four_pattern(), line.len() - 6 + 1);
    }
    assert forall|k: int| 0 <= k < four_patterns().len() implies has_two_mine(#[trigger] four_patterns()[k]) by {
        if k == 0 {
            assert(four_patterns()[k][1] == MINE && four_patterns()[k][2] == MINE);
        } else if k == 1 {
            assert(four_patterns()[k][1] == MINE && four_patterns()[k][2] == MINE);
        } else if k == 2 {
            assert(four_patterns()[k][0] == MINE && four_patterns()[k][2] == MINE);
        } else if k == 3 {
            assert(four_patterns()[k][0] == MINE && four_patterns()[k][1] == MINE);
        } else if k == 4 {
            assert(four_patterns()[k][0] == MINE && four_patterns()[k][1] == MINE);
        }
    }
    assert forall|k: int| 0 <= k < open_three_patterns().len() implies has_two_mine(#[trigger] open_three_patterns()[k]) by {
        if k == 0 {
            assert(open_three_patterns()[k][1] == MINE && open_three_patterns()[k][2] == MINE);
        } else if k == 1 {
            assert(open_three_patterns()[k][1] == MINE && open_three_patterns()[k][2] == MINE);
        } else if k == 2 {
            assert(open_three_patterns()[k][1] == MINE && open_three_patterns()[k][3] == MINE);
        }
    }
    assert forall|k: int| 0 <= k < three_patterns().len() implies has_two_mine(#[trigger] three_patterns()[k]) by {
        if k == 0 {
            assert(three_patterns()[k][1] == MINE && three_patterns()[k][2] == MINE);
        } else if k == 1 {
            assert(three_patterns()[k][2] == MINE && three_patterns()[k][3] == MINE);
        } else if k == 2 {
            assert(three_patterns()[k][1] == MINE && three_patterns()[k][2] == MINE);
        } else if k == 3 {
            assert(three_patterns()[k][1] == MINE && three_patterns()[k][3] == MINE);
        } else if k == 4 {
            assert(three_patterns()[k][1] == MINE && three_patterns()[k][3] == MINE);
        } else if k == 5 {
            assert(three_patterns()[k][1] == MINE && three_patterns()[k][2] == MINE);
        } else if k == 6 {
            assert(three_patterns()[k][1] == MINE && three_patterns()[k][2] == MINE);
        } else if k == 7 {
            assert(three_patterns()[k][2] == MINE && three_patterns()[k][3] == MINE);
        }
    }
    assert forall|k: int| 0 <= k < open_two_patterns().len() implies has_two_mine(#[trigger] open_two_patterns()[k]) by {
        if k == 0 {
            assert(open_two_patterns()[k][2] == MINE && open_two_patterns()[k][3] == MINE);
        } else if k == 1 {
            assert(open_two_patterns()[k][1] == MINE && open_two_patterns()[k][3] == MINE);
        } else if k == 2 {
            assert(open_two_patterns()[k][1] == MINE && open_two_patterns()[k][2] == MINE);
        }
    }
    assert forall|k: int| 0 <= k < two_patterns().len() implies has_two_mine(#[trigger] two_patterns()[k]) by {
        if k == 0 {
            assert(two_patterns()[k][1] == MINE && two_patterns()[k][2] == MINE);
        } else if k == 1 {
            assert(two_patterns()[k][2] == MINE && two_patterns()[k][3] == MINE);
        } else if k == 2 {
            assert(two_patterns()[k][1] == MINE && two_patterns()[k][3] == MINE);
        } else if k == 3 {
            assert(two_patterns()[k][1] == MINE && two_patterns()[k][3] == MINE);
        }
    }
    lemma_group_zero(line, four_patterns());
    lemma_group_zero(line, open_three_patterns());
    lemma_group_zero(line, three_patterns());
    lemma_group_zero(line, open_two_patterns());
    lemma_group_zero(line, two_patterns());
}

/// A line holding five friendly stones in a row scores at least `SCORE_FIVE`.
pub proof fn law_five_scores(line: Seq<u8>, i: int)
    requires
        0 <= i,
        i + 5 <= line.len(),
        matches_at(line, five_pattern(), i),
    ensures
        score_spec(line) >= SCORE_FIVE,
{
    lemma_count_upto_mono(line, five_pattern(), i, i + 1);
    lemma_count_upto_mono(line, five_pattern(), i + 1, line.len() - 5 + 1);
    assert(count_spec(line, five_pattern()) >= 1);
}

} // verus!
