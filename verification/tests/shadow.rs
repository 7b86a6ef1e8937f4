use adabt_engine::caches::Rows;
use adabt_engine::double::push_share;
use adabt_engine::error::Error;
use adabt_engine::record::Record;
use adabt_engine::shadow::{trial, ShadowReport, Trial};
use adabt_engine::value::Value;

struct Pair {
    candidate_drops_one: bool,
    candidate_delay_nanos: u64,
}

fn fifty() -> Rows {
    (0..50u64).map(|i| (i, Record::new().with("i", Value::I64(i as i64)))).collect()
}

impl Pair {
    fn run(&self, report: &mut ShadowReport) -> Result<Rows, Error> {
        let mut cand = fifty();
        if self.candidate_drops_one {
            cand.pop();
        }
        trial(
            Ok(fifty()),
            Ok(cand),
            1_000,
            1_000 + self.candidate_delay_nanos,
            "scan c",
            report,
        )
    }
}

fn pair(drops: bool) -> Pair {
    Pair { candidate_drops_one: drops, candidate_delay_nanos: 0 }
}

fn ratio(r: (u64, u64)) -> f64 {
    r.0 as f64 / r.1 as f64
}

#[test]
fn agreeing_paths_report_no_divergence() {
    let p = pair(false);
    let mut r = ShadowReport::default();
    for _ in 0..20 {
        p.run(&mut r).unwrap();
    }
    assert_eq!(r.trials(), 20);
    assert!(r.is_correct());
    assert_eq!(r.divergences(), 0);
}

#[test]
fn one_dropped_row_is_caught_on_the_first_trial() {
    // The failure mode that matters: a candidate that is subtly wrong.
    let p = pair(true);
    let mut r = ShadowReport::default();
    p.run(&mut r).unwrap();
    assert!(!r.is_correct());
    assert_eq!(r.divergences(), 1);
    let d = r.first_divergence().unwrap();
    assert!(d.contains("50 rows"), "{d}");
    assert!(d.contains("49"), "{d}");
}

#[test]
fn the_caller_always_receives_the_baseline_result() {
    // A shadow evaluates the candidate; it does not trust it. Serving
    // candidate results would make this a canary, and the distinction is
    // the entire safety argument.
    let p = pair(true);
    let mut r = ShadowReport::default();
    let got = p.run(&mut r).unwrap();
    assert_eq!(
        got.len(),
        50,
        "a divergent candidate's rows reached the caller"
    );
}

#[test]
fn a_faster_candidate_shows_a_ratio_below_one() {
    let p = pair(false);
    let mut r = ShadowReport::default();
    for _ in 0..40 {
        p.run(&mut r).unwrap();
    }
    assert!(ratio(r.p50_ratio()) > 0.0);
    assert!(r.describe().contains("40 trials"));

    let mut fast = ShadowReport::default();
    fast.record(
        Trial { baseline_nanos: 1000, candidate_nanos: 400, rows: 1, diverged: false },
        String::new,
    );
    assert!(ratio(fast.p50_ratio()) < 1.0);
}

#[test]
fn a_slower_candidate_is_visible_in_the_ratio() {
    let mut p = pair(false);
    p.candidate_delay_nanos = 200_000;
    let mut r = ShadowReport::default();
    for _ in 0..20 {
        p.run(&mut r).unwrap();
    }
    assert!(
        ratio(r.p50_ratio()) > 1.5,
        "a deliberately slowed candidate did not show as slower: {}",
        r.describe()
    );
    assert!(r.is_correct(), "slowness is not divergence");
}

#[test]
fn credibility_needs_both_enough_trials_and_a_real_effect() {
    let mut r = ShadowReport::default();
    for _ in 0..5 {
        r.record(
            Trial { baseline_nanos: 1000, candidate_nanos: 100, rows: 1, diverged: false },
            String::new,
        );
    }
    assert!(!r.improvement_is_credible(100, 20), "too few trials believed");
    assert!(r.improvement_is_credible(5, 20));
    assert!(!r.improvement_is_credible(5, 101), "nothing is better by more than all of it");

    let mut marginal = ShadowReport::default();
    for _ in 0..1000 {
        marginal.record(
            Trial { baseline_nanos: 1000, candidate_nanos: 990, rows: 1, diverged: false },
            String::new,
        );
    }
    assert!(
        !marginal.improvement_is_credible(10, 20),
        "a 1% improvement was called credible"
    );
}

#[test]
fn an_empty_report_describes_itself() {
    let r = ShadowReport::default();
    assert!(r.describe().contains("no trials"));
    assert!(r.is_correct(), "nothing observed is not a failure");
    assert_eq!(ratio(r.p50_ratio()), 1.0);
}

#[test]
fn a_percentile_is_of_the_samples_in_order() {
    let mut r = ShadowReport::default();
    for nanos in [50, 10, 40, 20, 30] {
        r.record(
            Trial { baseline_nanos: nanos, candidate_nanos: 60 - nanos, rows: 1, diverged: false },
            String::new,
        );
    }
    assert_eq!(r.baseline_p50(), 30);
    assert_eq!(r.baseline_p99(), 50);
    assert_eq!(r.candidate_p50(), 30);
}

#[test]
fn a_candidate_that_fails_is_held_against_it_and_not_against_the_caller() {
    let no = || Error::Unsupported("no".into());
    let mut r = ShadowReport::default();
    let got = trial(Ok(fifty()), Err(no()), 7, 9, "scan c", &mut r);
    assert_eq!(got, Ok(fifty()), "the candidate's failure reached the caller");
    assert_eq!(r.trials(), 1);
    assert!(!r.is_correct());
    assert_eq!(
        r.first_divergence(),
        Some("query returned 50 rows from the baseline and failed on the candidate:\nscan c")
    );
    let t = Trial { baseline_nanos: 7, candidate_nanos: 9, rows: 50, diverged: true };
    assert_eq!(r.last_trial(), Some(t));

    // A baseline that failed leaves nothing to compare with.
    let mut r = ShadowReport::default();
    assert_eq!(trial(Err(no()), Ok(fifty()), 1, 1, "scan c", &mut r), Err(no()));
    assert_eq!(r.trials(), 0);
    assert!(r.last_trial().is_none());
    let t = Trial { baseline_nanos: 300, candidate_nanos: 100, rows: 1, diverged: false };
    assert_eq!(t.speedup(), Some((300, 100)));
    let t = Trial { baseline_nanos: 300, candidate_nanos: 0, rows: 1, diverged: false };
    assert_eq!(t.speedup(), None);
}

/// A report of one trial.
fn told(baseline_nanos: u64, candidate_nanos: u64) -> String {
    let mut r = ShadowReport::default();
    r.record(Trial { baseline_nanos, candidate_nanos, rows: 1, diverged: false }, String::new);
    r.describe()
}

#[test]
fn percentages_are_written_as_doubles_are() {
    assert_eq!(told(2000, 2003), "1 trials, 0 divergences, p50 +0.2%, p99 +0.2%");
    assert_eq!(told(1000, 500), "1 trials, 0 divergences, p50 -50.0%, p99 -50.0%");
    assert_eq!(told(1000, 0), "1 trials, 0 divergences, p50 -100.0%, p99 -100.0%");
    let mut n: u64 = 0x9e37_79b9_7f4a_7c15;
    let mut next = || {
        n ^= n << 13;
        n ^= n >> 7;
        n ^= n << 17;
        n
    };
    for round in 0..4000u32 {
        let shift = round % 60;
        let (b, c) = match round % 4 {
            0 => ((next() >> shift) | 1, next() >> shift),
            1 => (2000, 1000 + next() % 2000),
            2 => ((next() >> 40) | 1, next() >> (next() % 64)),
            _ => (u64::MAX - next() % 9, u64::MAX - next() % 9),
        };
        let p = (c as f64 / b as f64 - 1.0) * 100.0;
        assert_eq!(
            told(b, c),
            format!("1 trials, 0 divergences, p50 {p:+.1}%, p99 {p:+.1}%"),
            "{c} against {b}"
        );
    }
}

#[test]
fn shares_are_written_as_doubles_are() {
    for (part, whole) in [(0, 7), (1, 2000), (1, 3), (17, 20000), (u64::MAX - 1, u64::MAX)] {
        let mut s = String::new();
        push_share(&mut s, part, whole);
        assert_eq!(s, format!("{:.1}%", part as f64 / whole as f64 * 100.0));
    }
}
