//! Shadow execution: answering one query two ways and comparing.
//!
//! The baseline result is what a caller receives: the candidate is being judged,
//! not trusted.

use vstd::prelude::*;
use vstd::string::*;
use crate::caches::{raised_by, rows_model, tick, ticked, Rows};
use crate::error::Error;
use crate::record::RecordModel;
use crate::sorting::sort_numbers;
use crate::double::{percent_text, push_percent};
use crate::text::{dec_text, push_dec};

verus! {

/// One paired execution.
#[derive(Clone, Copy, Debug, PartialEq, Eq, Structural)]
pub struct Trial {
    pub baseline_nanos: u64,
    pub candidate_nanos: u64,
    pub rows: usize,
    /// True when the two paths returned different results.
    pub diverged: bool,
}

impl Trial {
    /// How many times faster the candidate was, as the two times to divide;
    /// nothing where it took no time at all.
    pub fn speedup(&self) -> (r: Option<(u64, u64)>)
        ensures
            r == if self.candidate_nanos == 0 {
                None
            } else {
                Some((self.baseline_nanos, self.candidate_nanos))
            },
    {
        if self.candidate_nanos == 0 {
            None
        } else {
            Some((self.baseline_nanos, self.candidate_nanos))
        }
    }
}

/// Accumulated evidence from many trials.
pub struct ShadowReport {
    trials: u64,
    divergences: u64,
    baseline_total_nanos: u64,
    candidate_total_nanos: u64,
    baseline_samples: Vec<u64>,
    candidate_samples: Vec<u64>,
    first_divergence: Option<String>,
    last: Option<Trial>,
}

/// What a [`ShadowReport`] holds.
pub struct ReportModel {
    pub trials: u64,
    pub divergences: u64,
    pub baseline_total_nanos: u64,
    pub candidate_total_nanos: u64,
    pub baseline_samples: Seq<u64>,
    pub candidate_samples: Seq<u64>,
    /// The first query that disagreed.
    pub first_divergence: Option<Seq<char>>,
    pub last: Option<Trial>,
}

impl View for ShadowReport {
    type V = ReportModel;

    closed spec fn view(&self) -> ReportModel {
        ReportModel {
            trials: self.trials,
            divergences: self.divergences,
            baseline_total_nanos: self.baseline_total_nanos,
            candidate_total_nanos: self.candidate_total_nanos,
            baseline_samples: self.baseline_samples@,
            candidate_samples: self.candidate_samples@,
            first_divergence: match self.first_divergence {
                Some(s) => Some(s@),
                None => None,
            },
            last: self.last,
        }
    }
}

/// A report after one more trial, described by `words` if it is the first to
/// disagree.
pub open spec fn recorded(r: ReportModel, t: Trial, words: Seq<char>) -> ReportModel {
    ReportModel {
        trials: ticked(r.trials),
        divergences: if t.diverged {
            ticked(r.divergences)
        } else {
            r.divergences
        },
        baseline_total_nanos: raised_by(r.baseline_total_nanos, t.baseline_nanos as nat),
        candidate_total_nanos: raised_by(r.candidate_total_nanos, t.candidate_nanos as nat),
        baseline_samples: r.baseline_samples.push(t.baseline_nanos),
        candidate_samples: r.candidate_samples.push(t.candidate_nanos),
        first_divergence: if t.diverged && r.first_divergence is None {
            Some(words)
        } else {
            r.first_divergence
        },
        last: Some(t),
    }
}

/// How many samples are below `x`.
pub open spec fn below(s: Seq<u64>, x: u64) -> nat
    decreases s.len(),
{
    if s.len() == 0 {
        0
    } else {
        below(s.drop_last(), x) + if s.last() < x {
            1nat
        } else {
            0
        }
    }
}

/// The position, counted from zero, of the `p`-th percentile among `n` samples:
/// the nearest position to `p` hundredths of the way, halves upwards.
pub open spec fn rank_of(n: nat, p: nat) -> nat {
    ((p * (n - 1) + 50) / 100) as nat
}

/// Whether `x` is the sample that stands at position `rank` once the samples are
/// in order: at most `rank` are smaller, and more than `rank` are not larger.
pub open spec fn stands_at(s: Seq<u64>, rank: nat, x: u64) -> bool {
    s.contains(x) && below(s, x) <= rank && (x == u64::MAX || below(s, (x + 1) as u64) > rank)
}

/// Whether `x` is the `p`-th percentile. Of no samples it is zero.
pub open spec fn is_percentile(s: Seq<u64>, p: nat, x: u64) -> bool {
    if s.len() == 0 {
        x == 0
    } else {
        stands_at(s, rank_of(s.len(), p), x)
    }
}

proof fn lemma_below_bounds(s: Seq<u64>, x: u64)
    ensures
        below(s, x) <= s.len(),
    decreases s.len(),
{
    if s.len() > 0 {
        lemma_below_bounds(s.drop_last(), x);
    }
}

proof fn lemma_below_mono(s: Seq<u64>, x: u64, y: u64)
    requires
        x <= y,
    ensures
        below(s, x) <= below(s, y),
    decreases s.len(),
{
    if s.len() > 0 {
        lemma_below_mono(s.drop_last(), x, y);
    }
}

/// There is only one percentile.
pub proof fn a_percentile_is_unique(s: Seq<u64>, p: nat, x: u64, y: u64)
    requires
        is_percentile(s, p, x),
        is_percentile(s, p, y),
    ensures
        x == y,
{
    if s.len() > 0 {
        if x < y {
            lemma_below_mono(s, (x + 1) as u64, y);
        } else if y < x {
            lemma_below_mono(s, (y + 1) as u64, x);
        }
    }
}

proof fn lemma_below_multiset(a: Seq<u64>, b: Seq<u64>, x: u64)
    requires
        a.to_multiset() == b.to_multiset(),
    ensures
        below(a, x) == below(b, x),
        a.len() == b.len(),
    decreases a.len(),
{
    a.to_multiset_ensures();
    b.to_multiset_ensures();
    if a.len() > 0 {
        let last = a.last();
        assert(a.contains(last)) by {
            assert(a[a.len() - 1] == last);
        }
        assert(a.to_multiset().count(last) > 0);
        assert(b.contains(last));
        let i = choose|i: int| 0 <= i < b.len() && b[i] == last;
        let rest = b.remove(i);
        assert(a.remove(a.len() - 1) =~= a.drop_last());
        assert(a.remove(a.len() - 1).to_multiset() =~= a.to_multiset().remove(last));
        assert(rest.to_multiset() =~= b.to_multiset().remove(last));
        lemma_below_multiset(a.drop_last(), rest, x);
        lemma_below_remove(b, i, x);
    }
}

proof fn lemma_below_remove(s: Seq<u64>, i: int, x: u64)
    requires
        0 <= i < s.len(),
    ensures
        below(s, x) == below(s.remove(i), x) + if s[i] < x {
            1nat
        } else {
            0
        },
    decreases s.len(),
{
    if i == s.len() - 1 {
        assert(s.remove(i) =~= s.drop_last());
    } else {
        lemma_below_remove(s.drop_last(), i, x);
        assert(s.remove(i).drop_last() =~= s.drop_last().remove(i));
    }
}

proof fn lemma_below_sorted(s: Seq<u64>, k: int, x: u64)
    requires
        0 <= k <= s.len(),
        forall|i: int| 0 <= i < k ==> #[trigger] s[i] < x,
        forall|i: int| k <= i < s.len() ==> #[trigger] s[i] >= x,
    ensures
        below(s, x) == k,
    decreases s.len(),
{
    if s.len() > 0 {
        if k == s.len() {
            assert forall|i: int| 0 <= i < k - 1 implies #[trigger] s.drop_last()[i] < x by {
                assert(s.drop_last()[i] == s[i]);
            }
            lemma_below_sorted(s.drop_last(), k - 1, x);
        } else {
            assert forall|i: int| 0 <= i < k implies #[trigger] s.drop_last()[i] < x by {
                assert(s.drop_last()[i] == s[i]);
            }
            assert forall|i: int| k <= i < s.len() - 1 implies #[trigger] s.drop_last()[i]
                >= x by {
                assert(s.drop_last()[i] == s[i]);
            }
            lemma_below_sorted(s.drop_last(), k, x);
        }
    }
}

/// Where the values below `x` end in a sorted sequence.
proof fn lemma_split_sorted(s: Seq<u64>, x: u64) -> (k: int)
    requires
        forall|i: int, j: int| 0 <= i <= j < s.len() ==> s[i] <= s[j],
    ensures
        0 <= k <= s.len(),
        forall|i: int| 0 <= i < k ==> #[trigger] s[i] < x,
        forall|i: int| k <= i < s.len() ==> #[trigger] s[i] >= x,
    decreases s.len(),
{
    if s.len() == 0 {
        0
    } else if s.last() < x {
        s.len() as int
    } else {
        let t = s.drop_last();
        let k = lemma_split_sorted(t, x);
        assert forall|i: int| 0 <= i < k implies #[trigger] s[i] < x by {
            assert(t[i] == s[i]);
        }
        assert forall|i: int| k <= i < s.len() implies #[trigger] s[i] >= x by {
            if i < t.len() {
                assert(t[i] == s[i]);
            }
        }
        k
    }
}

fn percentile(samples: &Vec<u64>, p: u64) -> (x: u64)
    requires
        p <= 100,
    ensures
        is_percentile(samples@, p as nat, x),
{
    if samples.len() == 0 {
        return 0;
    }
    let s = sort_numbers(samples);
    let n: usize = samples.len();
    proof {
        lemma_below_multiset(s@, samples@, 0);
    }
    assert(0 <= p * (n - 1) <= 100 * (n - 1)) by (nonlinear_arith)
        requires
            p <= 100,
            n >= 1,
    ;
    let most: u128 = n as u128 - 1;
    let wide: u128 = (p as u128 * most + 50) / 100;
    let rank: usize = wide as usize;
    assert(rank < n && rank == rank_of(n as nat, p as nat));
    let x = s[rank];
    proof {
        let k = lemma_split_sorted(s@, x);
        lemma_below_sorted(s@, k, x);
        lemma_below_multiset(s@, samples@, x);
        assert(k <= rank);
        if x < u64::MAX {
            let y = (x + 1) as u64;
            let m = lemma_split_sorted(s@, y);
            lemma_below_sorted(s@, m, y);
            lemma_below_multiset(s@, samples@, y);
            assert(m > rank);
        }
        assert(s@.contains(x));
        s@.to_multiset_ensures();
        samples@.to_multiset_ensures();
        assert(s@.to_multiset().count(x) > 0);
    }
    x
}

/// A ratio of a candidate time to a baseline time. Against nothing it is one.
pub open spec fn ratio(candidate: u64, baseline: u64) -> (u64, u64) {
    if baseline == 0 {
        (1, 1)
    } else {
        (candidate, baseline)
    }
}

/// What a report says.
pub open spec fn report_text(
    trials: u64,
    divergences: u64,
    p50: (u64, u64),
    p99: (u64, u64),
) -> Seq<char> {
    if trials == 0 {
        "no trials run"@
    } else {
        dec_text(trials as nat) + " trials, "@ + dec_text(divergences as nat) + " divergences, p50 "@
            + percent_text(p50) + ", p99 "@ + percent_text(p99)
    }
}

/// What a report says before the first trial.
pub open spec fn no_trials() -> ReportModel {
    ReportModel {
        trials: 0,
        divergences: 0,
        baseline_total_nanos: 0,
        candidate_total_nanos: 0,
        baseline_samples: Seq::empty(),
        candidate_samples: Seq::empty(),
        first_divergence: None,
        last: None,
    }
}

impl Default for ShadowReport {
    fn default() -> (r: ShadowReport)
        ensures
            r@ == no_trials(),
    {
        let r = ShadowReport {
            trials: 0,
            divergences: 0,
            baseline_total_nanos: 0,
            candidate_total_nanos: 0,
            baseline_samples: Vec::new(),
            candidate_samples: Vec::new(),
            first_divergence: None,
            last: None,
        };
        assert(r@.baseline_samples =~= Seq::empty());
        assert(r@.candidate_samples =~= Seq::empty());
        r
    }
}

fn sum_nanos(a: u64, b: u64) -> (r: u64)
    ensures
        r == raised_by(a, b as nat),
{
    if b >= u64::MAX - a {
        u64::MAX
    } else {
        a + b
    }
}

impl ShadowReport {
    /// The most recent pair, so that a caller can attribute its two timings.
    pub fn last_trial(&self) -> (r: Option<Trial>)
        ensures
            r == self@.last,
    {
        self.last
    }

    pub fn trials(&self) -> (n: u64)
        ensures
            n == self@.trials,
    {
        self.trials
    }

    pub fn divergences(&self) -> (n: u64)
        ensures
            n == self@.divergences,
    {
        self.divergences
    }

    /// The first query that disagreed.
    pub fn first_divergence(&self) -> (r: Option<&str>)
        ensures
            match self@.first_divergence {
                Some(s) => r matches Some(t) && t@ == s,
                None => r is None,
            },
    {
        match &self.first_divergence {
            Some(s) => Some(s.as_str()),
            None => None,
        }
    }

    /// Take one trial into account. `describe` is asked only for the first trial
    /// that disagrees.
    pub fn record<F: FnOnce() -> String>(&mut self, trial: Trial, describe: F)
        requires
            describe.requires(()),
        ensures
            trial.diverged && old(self)@.first_divergence is None ==> exists|words: String|
                describe.ensures((), words) && final(self)@ == #[trigger] recorded(
                    old(self)@,
                    trial,
                    words@,
                ),
            !(trial.diverged && old(self)@.first_divergence is None) ==> final(self)@ == recorded(
                old(self)@,
                trial,
                Seq::empty(),
            ),
    {
        let first = trial.diverged && self.first_divergence.is_none();
        if first {
            let words = describe();
            let ghost said = words;
            self.absorb(trial, Some(words));
            assert(self@ == recorded(old(self)@, trial, said@));
        } else {
            self.absorb(trial, None);
        }
    }

    /// Take one trial into account, with the words for it where it is the first
    /// to disagree.
    fn absorb(&mut self, trial: Trial, words: Option<String>)
        requires
            words is Some == (trial.diverged && old(self)@.first_divergence is None),
        ensures
            final(self)@ == recorded(
                old(self)@,
                trial,
                match words {
                    Some(s) => s@,
                    None => Seq::empty(),
                },
            ),
    {
        self.last = Some(trial);
        self.trials = tick(self.trials);
        self.baseline_total_nanos = sum_nanos(self.baseline_total_nanos, trial.baseline_nanos);
        self.candidate_total_nanos = sum_nanos(self.candidate_total_nanos, trial.candidate_nanos);
        self.baseline_samples.push(trial.baseline_nanos);
        self.candidate_samples.push(trial.candidate_nanos);
        if trial.diverged {
            self.divergences = tick(self.divergences);
        }
        if words.is_some() {
            self.first_divergence = words;
        }
    }

    pub fn is_correct(&self) -> (r: bool)
        ensures
            r == (self@.divergences == 0),
    {
        self.divergences == 0
    }

    pub fn baseline_p50(&self) -> (x: u64)
        ensures
            is_percentile(self@.baseline_samples, 50, x),
    {
        percentile(&self.baseline_samples, 50)
    }

    pub fn candidate_p50(&self) -> (x: u64)
        ensures
            is_percentile(self@.candidate_samples, 50, x),
    {
        percentile(&self.candidate_samples, 50)
    }

    pub fn baseline_p99(&self) -> (x: u64)
        ensures
            is_percentile(self@.baseline_samples, 99, x),
    {
        percentile(&self.baseline_samples, 99)
    }

    pub fn candidate_p99(&self) -> (x: u64)
        ensures
            is_percentile(self@.candidate_samples, 99, x),
    {
        percentile(&self.candidate_samples, 99)
    }

    /// The candidate's median against the baseline's. Below one means faster.
    pub fn p50_ratio(&self) -> (r: (u64, u64))
        ensures
            is_p50_ratio(self@, r),
            r.1 > 0,
    {
        let b = self.baseline_p50();
        let c = self.candidate_p50();
        assert(is_percentile(self@.candidate_samples, 50, c));
        if b == 0 {
            (1, 1)
        } else {
            (c, b)
        }
    }

    pub fn p99_ratio(&self) -> (r: (u64, u64))
        ensures
            is_p99_ratio(self@, r),
            r.1 > 0,
    {
        let b = self.baseline_p99();
        let c = self.candidate_p99();
        assert(is_percentile(self@.candidate_samples, 99, c));
        if b == 0 {
            (1, 1)
        } else {
            (c, b)
        }
    }

    /// Whether the improvement is large enough to believe from this many trials:
    /// the median is lower by at least `min_effect` percent.
    pub fn improvement_is_credible(&self, min_trials: u64, min_effect: u8) -> (r: bool)
        ensures
            exists|q: (u64, u64)| #[trigger]
                is_p50_ratio(self@, q) && r == (self@.trials >= min_trials && q.0 * 100 <= q.1 * (100
                    - min_effect)),
    {
        let q = self.p50_ratio();
        let lhs: u128 = q.0 as u128 * 100;
        if min_effect > 100 {
            assert(q.1 * (100 - min_effect) < 0) by (nonlinear_arith)
                requires
                    q.1 > 0,
                    min_effect > 100,
            ;
            return false;
        }
        let keep: u128 = 100 - min_effect as u128;
        assert(q.1 as u128 * keep <= u64::MAX * 100) by (nonlinear_arith)
            requires
                q.1 <= u64::MAX,
                keep <= 100,
        ;
        let rhs: u128 = q.1 as u128 * keep;
        self.trials >= min_trials && lhs <= rhs
    }

    /// What the trials showed, in words.
    pub fn describe(&self) -> (s: String)
        ensures
            says(self@, s@),
    {
        let p50 = self.p50_ratio();
        let p99 = self.p99_ratio();
        if self.trials == 0 {
            return "no trials run".to_owned();
        }
        let mut s = String::new();
        push_dec(&mut s, self.trials);
        s.append(" trials, ");
        push_dec(&mut s, self.divergences);
        s.append(" divergences, p50 ");
        push_percent(&mut s, p50);
        s.append(", p99 ");
        push_percent(&mut s, p99);
        assert(s@ =~= report_text(self@.trials, self@.divergences, p50, p99));
        s
    }
}

/// Whether `s` is what a report says.
pub open spec fn says(m: ReportModel, s: Seq<char>) -> bool {
    exists|p50: (u64, u64), p99: (u64, u64)| #[trigger]
        is_p50_ratio(m, p50) && #[trigger] is_p99_ratio(m, p99) && s == report_text(
            m.trials,
            m.divergences,
            p50,
            p99,
        )
}

/// A report says one thing only.
pub proof fn a_report_says_one_thing(m: ReportModel, s: Seq<char>, t: Seq<char>)
    requires
        says(m, s),
        says(m, t),
    ensures
        s == t,
{
    let (a, b) = choose|p50: (u64, u64), p99: (u64, u64)| #[trigger]
        is_p50_ratio(m, p50) && #[trigger] is_p99_ratio(m, p99) && s == report_text(
            m.trials,
            m.divergences,
            p50,
            p99,
        );
    let (c, d) = choose|p50: (u64, u64), p99: (u64, u64)| #[trigger]
        is_p50_ratio(m, p50) && #[trigger] is_p99_ratio(m, p99) && t == report_text(
            m.trials,
            m.divergences,
            p50,
            p99,
        );
    lemma_ratio_unique(m.candidate_samples, m.baseline_samples, 50, a, c);
    lemma_ratio_unique(m.candidate_samples, m.baseline_samples, 99, b, d);
}

proof fn lemma_ratio_unique(
    cand: Seq<u64>,
    base: Seq<u64>,
    p: nat,
    x: (u64, u64),
    y: (u64, u64),
)
    requires
        exists|c: u64, b: u64| #[trigger]
            is_percentile(cand, p, c) && #[trigger] is_percentile(base, p, b) && x == ratio(c, b),
        exists|c: u64, b: u64| #[trigger]
            is_percentile(cand, p, c) && #[trigger] is_percentile(base, p, b) && y == ratio(c, b),
    ensures
        x == y,
{
    let (c, b) = choose|c: u64, b: u64| #[trigger]
        is_percentile(cand, p, c) && #[trigger] is_percentile(base, p, b) && x == ratio(c, b);
    let (e, f) = choose|c: u64, b: u64| #[trigger]
        is_percentile(cand, p, c) && #[trigger] is_percentile(base, p, b) && y == ratio(c, b);
    a_percentile_is_unique(cand, p, c, e);
    a_percentile_is_unique(base, p, b, f);
}

/// Whether `r` is the ratio of the medians.
pub open spec fn is_p50_ratio(m: ReportModel, r: (u64, u64)) -> bool {
    exists|c: u64, b: u64| #[trigger]
        is_percentile(m.candidate_samples, 50, c) && #[trigger] is_percentile(
            m.baseline_samples,
            50,
            b,
        ) && r == ratio(c, b)
}

/// Whether `r` is the ratio of the ninety-ninth percentiles.
pub open spec fn is_p99_ratio(m: ReportModel, r: (u64, u64)) -> bool {
    exists|c: u64, b: u64| #[trigger]
        is_percentile(m.candidate_samples, 99, c) && #[trigger] is_percentile(
            m.baseline_samples,
            99,
            b,
        ) && r == ratio(c, b)
}

// -- one trial ---------------------------------------------------------------

/// Whether two results hold the same rows in the same order.
pub fn rows_same(a: &Rows, b: &Rows) -> (r: bool)
    ensures
        r == (rows_model(a@) == rows_model(b@)),
{
    if a.len() != b.len() {
        assert(rows_model(a@).len() != rows_model(b@).len());
        return false;
    }
    let mut i: usize = 0;
    while i < a.len()
        invariant
            i <= a.len(),
            a@.len() == b@.len(),
            forall|k: int| 0 <= k < i ==> #[trigger] rows_model(a@)[k] == rows_model(b@)[k],
        decreases a.len() - i,
    {
        if a[i].0 != b[i].0 || !a[i].1.same(&b[i].1) {
            assert(rows_model(a@)[i as int] != rows_model(b@)[i as int]);
            return false;
        }
        i += 1;
    }
    assert(rows_model(a@) =~= rows_model(b@));
    true
}

/// What is said of a query whose two answers differ.
pub open spec fn divergence_text(baseline: nat, candidate: nat, explain: Seq<char>) -> Seq<char> {
    "query returned "@ + dec_text(baseline) + " rows from the baseline and "@ + dec_text(candidate)
        + " from the candidate:\n"@ + explain
}

fn divergence_words(baseline: usize, candidate: usize, explain: &str) -> (s: String)
    ensures
        s@ == divergence_text(baseline as nat, candidate as nat, explain@),
{
    let mut s = "query returned ".to_owned();
    push_dec(&mut s, baseline as u64);
    s.append(" rows from the baseline and ");
    push_dec(&mut s, candidate as u64);
    s.append(" from the candidate:\n");
    s.append(explain);
    s
}

/// What is said of a query the candidate fails on.
pub open spec fn failure_text(baseline: nat, explain: Seq<char>) -> Seq<char> {
    "query returned "@ + dec_text(baseline) + " rows from the baseline and failed on the candidate:\n"@
        + explain
}

fn failure_words(baseline: usize, explain: &str) -> (s: String)
    ensures
        s@ == failure_text(baseline as nat, explain@),
{
    let mut s = "query returned ".to_owned();
    push_dec(&mut s, baseline as u64);
    s.append(" rows from the baseline and failed on the candidate:\n");
    s.append(explain);
    s
}

/// The trial that a baseline's rows, a candidate's answer and their times amount to.
/// A candidate that failed did not answer as the baseline did.
pub open spec fn trial_of(
    base: Seq<(u64, RecordModel)>,
    cand: Option<Seq<(u64, RecordModel)>>,
    baseline_nanos: u64,
    candidate_nanos: u64,
) -> Trial {
    Trial {
        baseline_nanos,
        candidate_nanos,
        rows: base.len() as usize,
        diverged: cand != Some(base),
    }
}

/// What an answer holds, where there is one.
pub open spec fn answered(r: Result<Rows, Error>) -> Option<Seq<(u64, RecordModel)>> {
    match r {
        Ok(rows) => Some(rows_model(rows@)),
        Err(_) => None,
    }
}

/// What is said of a query whose candidate did not answer as the baseline did.
pub open spec fn disagreement(base: Rows, cand: Result<Rows, Error>, explain: Seq<char>) -> Seq<char> {
    match cand {
        Ok(c) => divergence_text(base@.len(), c@.len(), explain),
        Err(_) => failure_text(base@.len(), explain),
    }
}

/// Judge one query answered both ways. What the baseline returned is what the caller
/// gets, whatever came of the candidate: it is evaluated, not trusted. A candidate
/// that fails where the baseline does not is held against it as any other
/// disagreement is. A baseline that failed leaves nothing to compare with.
pub fn trial(
    base: Result<Rows, Error>,
    cand: Result<Rows, Error>,
    baseline_nanos: u64,
    candidate_nanos: u64,
    explain: &str,
    report: &mut ShadowReport,
) -> (r: Result<Rows, Error>)
    ensures
        r == base,
        match base {
            Err(_) => final(report)@ == old(report)@,
            Ok(b) => final(report)@ == recorded(
                old(report)@,
                trial_of(rows_model(b@), answered(cand), baseline_nanos, candidate_nanos),
                disagreement(b, cand, explain@),
            ),
        },
{
    match base {
        Err(e) => Err(e),
        Ok(b) => {
            let diverged = match &cand {
                Ok(c) => !rows_same(&b, c),
                Err(_) => true,
            };
            let t = Trial { baseline_nanos, candidate_nanos, rows: b.len(), diverged };
            let words = if diverged && report.first_divergence.is_none() {
                match &cand {
                    Ok(c) => Some(divergence_words(b.len(), c.len(), explain)),
                    Err(_) => Some(failure_words(b.len(), explain)),
                }
            } else {
                None
            };
            report.absorb(t, words);
            proof {
                assert(rows_model(b@).len() == b@.len());
            }
            Ok(b)
        },
    }
}

// -- what a report shows ---------------------------------------------------------

/// A percentile of samples is the one that stands, once they are in order, nearest to
/// that many hundredths of the way from the least to the greatest. So none of them is
/// below the least percentile or above the greatest.
pub proof fn a_percentile_stands_nearest_its_share(s: Seq<u64>, p: nat, x: u64, t: Seq<u64>)
    requires
        s.len() > 0,
        p <= 100,
        is_percentile(s, p, x),
        t.to_multiset() == s.to_multiset(),
        forall|i: int, j: int| 0 <= i <= j < t.len() ==> t[i] <= t[j],
    ensures
        exists|r: int|
            0 <= r < t.len() && #[trigger] t[r] == x && -50 <= 100 * r - p * (t.len() - 1) <= 50,
        p == 0 ==> x == t[0],
        p == 100 ==> x == t[t.len() - 1],
{
    let n = s.len();
    lemma_below_multiset(t, s, x);
    let r = rank_of(n, p) as int;
    assert(0 <= p * (n - 1) <= 100 * (n - 1)) by (nonlinear_arith)
        requires
            p <= 100,
            n >= 1,
    ;
    assert(0 <= r < n);
    let k = lemma_split_sorted(t, x);
    lemma_below_sorted(t, k, x);
    assert(k <= r);
    if x < u64::MAX {
        let y = (x + 1) as u64;
        let m = lemma_split_sorted(t, y);
        lemma_below_sorted(t, m, y);
        lemma_below_multiset(t, s, y);
        assert(m > r);
        assert(t[r] < y);
    }
    assert(t[r] >= x);
    assert(t[r] == x);
    if p == 0 {
        assert(0 * (n - 1) == 0);
    }
}

/// A ratio is of the candidate's time to the baseline's: below one where the candidate is
/// the faster, above where it is the slower. Where the baseline took no time it is one.
pub proof fn a_ratio_is_of_the_candidate_to_the_baseline(
    m: ReportModel,
    r: (u64, u64),
    c: u64,
    b: u64,
)
    ensures
        is_p50_ratio(m, r) && is_percentile(m.candidate_samples, 50, c) && is_percentile(
            m.baseline_samples,
            50,
            b,
        ) ==> r.1 > 0 && (b > 0 ==> (r.0 < r.1 <==> c < b) && (r.0 > r.1 <==> c > b) && r.0 * b == c
            * r.1) && (b == 0 ==> r.0 == r.1),
        is_p99_ratio(m, r) && is_percentile(m.candidate_samples, 99, c) && is_percentile(
            m.baseline_samples,
            99,
            b,
        ) ==> r.1 > 0 && (b > 0 ==> (r.0 < r.1 <==> c < b) && (r.0 > r.1 <==> c > b) && r.0 * b == c
            * r.1) && (b == 0 ==> r.0 == r.1),
{
    if is_p50_ratio(m, r) && is_percentile(m.candidate_samples, 50, c) && is_percentile(
        m.baseline_samples,
        50,
        b,
    ) {
        let (x, y) = choose|c: u64, b: u64| #[trigger]
            is_percentile(m.candidate_samples, 50, c) && #[trigger] is_percentile(
                m.baseline_samples,
                50,
                b,
            ) && r == ratio(c, b);
        a_percentile_is_unique(m.candidate_samples, 50, c, x);
        a_percentile_is_unique(m.baseline_samples, 50, b, y);
    }
    if is_p99_ratio(m, r) && is_percentile(m.candidate_samples, 99, c) && is_percentile(
        m.baseline_samples,
        99,
        b,
    ) {
        let (x, y) = choose|c: u64, b: u64| #[trigger]
            is_percentile(m.candidate_samples, 99, c) && #[trigger] is_percentile(
                m.baseline_samples,
                99,
                b,
            ) && r == ratio(c, b);
        a_percentile_is_unique(m.candidate_samples, 99, c, x);
        a_percentile_is_unique(m.baseline_samples, 99, b, y);
    }
}

/// A trial counts once, with each side's time among that side's; it is a divergence
/// exactly where the candidate did not give the baseline's rows in the baseline's order,
/// and the first divergence is the one that is told of.
pub proof fn a_trial_counts_once(
    r: ReportModel,
    base: Seq<(u64, RecordModel)>,
    cand: Option<Seq<(u64, RecordModel)>>,
    baseline_nanos: u64,
    candidate_nanos: u64,
    words: Seq<char>,
)
    ensures
        ({
            let t = trial_of(base, cand, baseline_nanos, candidate_nanos);
            let n = recorded(r, t, words);
            let same = cand matches Some(rows) && rows == base;
            &&& r.trials < u64::MAX ==> n.trials == r.trials + 1
            &&& n.baseline_samples == r.baseline_samples.push(baseline_nanos)
            &&& n.candidate_samples == r.candidate_samples.push(candidate_nanos)
            &&& same ==> n.divergences == r.divergences && n.first_divergence == r.first_divergence
            &&& !same && r.divergences < u64::MAX ==> n.divergences == r.divergences + 1
            &&& !same && r.first_divergence is None ==> n.first_divergence == Some(words)
            &&& r.first_divergence is Some ==> n.first_divergence == r.first_divergence
            &&& n.last matches Some(l) && l.diverged == !same && l.baseline_nanos == baseline_nanos
                && l.candidate_nanos == candidate_nanos
        }),
{
}

} // verus!
