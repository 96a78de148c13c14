use wizpatch::tally::{report, summary, Report};
use wizpatch::{Outcome, PatchStats, Tally, WizPatchError};

fn outcomes() -> Vec<Outcome> {
    vec![
        Outcome::Downloaded(10),
        Outcome::UpToDate,
        Outcome::SkippedPatchClient,
        Outcome::Failed(WizPatchError::Io("gone".to_string())),
        Outcome::UpToDate,
        Outcome::SkippedMissing,
        Outcome::UpToDate,
    ]
}

fn counts(s: &PatchStats) -> [usize; 5] {
    [s.total, s.downloaded, s.up_to_date, s.skipped_missing, s.failed]
}

#[test]
fn outcomes_are_counted() {
    let mut tally = Tally::new(8);
    for (i, outcome) in outcomes().iter().enumerate() {
        assert_eq!(tally.remaining(), 8 - i);
        assert_eq!(tally.record(outcome), i + 1);
    }
    assert_eq!(tally.remaining(), 1);
    let stats = tally.stats();
    assert_eq!(counts(&stats), [8, 1, 3, 1, 1]);
    // One record of the seven belongs to the patch client.
    assert_eq!(stats.downloaded + stats.up_to_date + stats.skipped_missing + stats.failed + 1, 7);
}

#[test]
fn order_does_not_matter() {
    let mut tally = Tally::new(7);
    for outcome in outcomes().iter().rev() {
        tally.record(outcome);
    }
    assert_eq!(counts(&tally.stats()), [7, 1, 3, 1, 1]);
}

#[test]
fn nothing_is_counted_at_first() {
    assert_eq!(counts(&Tally::new(3).stats()), [3, 0, 0, 0, 0]);
    assert_eq!(counts(&PatchStats::default()), [0, 0, 0, 0, 0]);
}

#[test]
fn reports_are_rendered() {
    match report(3, 12345, "Data/a.wad", &Outcome::Downloaded(4096), "") {
        Report::Progress(line) => assert_eq!(line, "[    3/12345] Data/a.wad (4096 bytes)"),
        other => panic!("{other:?}"),
    }
    let failed = Outcome::Failed(WizPatchError::Http("404".to_string()));
    match report(123456, 7, "a", &failed, "HTTP error: 404") {
        Report::Failure(line) => assert_eq!(line, "[123456/    7] a FAILED: HTTP error: 404"),
        other => panic!("{other:?}"),
    }
    for outcome in [Outcome::UpToDate, Outcome::SkippedMissing, Outcome::SkippedPatchClient] {
        assert!(matches!(report(1, 1, "a", &outcome, "x"), Report::Quiet));
    }
}

#[test]
fn summary_is_rendered() {
    let stats = PatchStats { total: 120, downloaded: 10, skipped_missing: 3, up_to_date: 100, failed: 2 };
    assert_eq!(
        summary(&stats),
        "\nDone. 10 downloaded, 100 up-to-date, 3 skipped (missing), 2 failed (of 120 records)."
    );
}
