use wizpatch::patcher::{plan_patch, process_one, queue_capacity, resolve_urls, Event, Step};
use wizpatch::{FileRecord, Outcome, PatchUrls, WizPatchError};

fn record(name: &str, crc: u64) -> FileRecord {
    FileRecord { src_file_name: name.to_string(), crc }
}

fn next(name: &str, download_missing: bool, event: Event) -> Step {
    process_one("http://b", &record(name, 0x1234), download_missing, event)
}

fn urls(file_list_url: &str, base_url: &str) -> PatchUrls {
    PatchUrls { file_list_url: file_list_url.to_string(), base_url: base_url.to_string() }
}

#[test]
fn patch_client_is_left_alone() {
    for name in ["PatchClient/BankA/x.exe", "patchclient/x", "PATCHCLIENT"] {
        assert!(matches!(next(name, true, Event::Taken), Step::Finished(Outcome::SkippedPatchClient)));
    }
    for name in ["Data/PatchClient/x", "PatchClient2/x", "/PatchClient", ""] {
        assert!(matches!(next(name, true, Event::Taken), Step::LookFor(_)));
    }
}

#[test]
fn local_file_is_looked_for_below_the_game() {
    match next("Windows/Bin/a.exe", true, Event::Taken) {
        Step::LookFor(path) => assert_eq!(path, "Bin/a.exe"),
        other => panic!("{other:?}"),
    }
}

#[test]
fn missing_file_is_fetched_if_wanted() {
    match next("Windows/Bin/a.exe", true, Event::Exists(false)) {
        Step::Fetch(url) => assert_eq!(url, "http://b/Windows/Bin/a.exe"),
        other => panic!("{other:?}"),
    }
    assert!(matches!(next("a", false, Event::Exists(false)), Step::Finished(Outcome::SkippedMissing)));
}

#[test]
fn present_file_is_checked() {
    assert!(matches!(next("a", false, Event::Exists(true)), Step::ReadCrc));
    assert!(matches!(next("a", false, Event::LocalCrc(Some(0x1234))), Step::Finished(Outcome::UpToDate)));
    for crc in [Some(0x1235), Some(0), None] {
        match next("a", false, Event::LocalCrc(crc)) {
            Step::Fetch(url) => assert_eq!(url, "http://b/a"),
            other => panic!("{other:?}"),
        }
    }
}

#[test]
fn checksum_beyond_32_bits_never_matches() {
    let rec = record("a", 0x1_0000_0005);
    assert!(matches!(process_one("b", &rec, true, Event::LocalCrc(Some(5))), Step::Fetch(_)));
}

#[test]
fn download_ends_the_work() {
    assert!(matches!(next("a", true, Event::Download(Ok(17))), Step::Finished(Outcome::Downloaded(17))));
    match next("a", true, Event::Download(Err(WizPatchError::Http("404".to_string())))) {
        Step::Finished(Outcome::Failed(WizPatchError::Http(text))) => assert_eq!(text, "404"),
        other => panic!("{other:?}"),
    }
}

/// Runs a record to its end in a world with this file and this download.
fn outcome(name: &str, download_missing: bool, exists: bool, crc: Option<u32>, bytes: u64) -> Outcome {
    let mut event = Event::Taken;
    loop {
        event = match next(name, download_missing, event) {
            Step::LookFor(_) => Event::Exists(exists),
            Step::ReadCrc => Event::LocalCrc(crc),
            Step::Fetch(_) => Event::Download(Ok(bytes)),
            Step::Finished(outcome) => return outcome,
        };
    }
}

#[test]
fn record_runs_to_its_outcome() {
    assert!(matches!(outcome("PatchClient/a", true, false, None, 1), Outcome::SkippedPatchClient));
    assert!(matches!(outcome("a", false, false, None, 1), Outcome::SkippedMissing));
    assert!(matches!(outcome("a", true, false, None, 2), Outcome::Downloaded(2)));
    assert!(matches!(outcome("a", false, true, Some(0x1234), 3), Outcome::UpToDate));
    assert!(matches!(outcome("a", false, true, Some(1), 4), Outcome::Downloaded(4)));
    assert!(matches!(outcome("a", false, true, None, 5), Outcome::Downloaded(5)));
}

#[test]
fn urls_are_kept_without_wanted_revision() {
    let r = resolve_urls(urls("no marker", "b"), &None).unwrap();
    assert_eq!((r.file_list_url.as_str(), r.base_url.as_str()), ("no marker", "b"));
}

#[test]
fn wanted_revision_replaces_the_current_one() {
    let live = urls("http://h/WizPatcher/V_r1/Windows/L.bin", "http://h/WizPatcher/V_r1/LatestBuild");
    let r = resolve_urls(live, &Some("V_r800683.Wizard_1_610".to_string())).unwrap();
    assert_eq!(r.file_list_url, "http://h/WizPatcher/V_r800683.Wizard_1_610/Windows/L.bin");
    assert_eq!(r.base_url, "http://h/WizPatcher/V_r800683.Wizard_1_610/LatestBuild");
}

#[test]
fn every_place_of_the_revision_is_replaced() {
    let r = resolve_urls(urls("V1.h/WizPatcher/V1/V1", "V1V1"), &Some("W".to_string())).unwrap();
    assert_eq!((r.file_list_url.as_str(), r.base_url.as_str()), ("W.h/WizPatcher/W/W", "WW"));
    let r = resolve_urls(urls("WizPatcher//x", "ab"), &Some("-".to_string())).unwrap();
    assert_eq!(r.base_url, "-a-b-");
    assert_eq!(r.file_list_url, "WizPatcher//x".replace("", "-"));
}

#[test]
fn wanting_the_current_revision_changes_nothing() {
    let r = resolve_urls(urls("http://h/WizPatcher/V1/V1", "http://V1/x"), &Some("V1".to_string())).unwrap();
    assert_eq!((r.file_list_url.as_str(), r.base_url.as_str()), ("http://h/WizPatcher/V1/V1", "http://V1/x"));
}

#[test]
fn wanted_revision_needs_a_current_one() {
    match resolve_urls(urls("http://h/x", "b"), &Some("V".to_string())) {
        Err(WizPatchError::NoRevision(url)) => assert_eq!(url, "http://h/x"),
        other => panic!("{other:?}"),
    }
}

#[test]
fn plan_names_the_revision() {
    let plan = plan_patch(urls("http://h/WizPatcher/V1/L", "http://h/WizPatcher/V1"), &None).unwrap();
    assert_eq!(plan.revision, "V1");
    let plan = plan_patch(urls("http://h/WizPatcher/V1/L", "http://h/V1"), &Some("V2".to_string())).unwrap();
    assert_eq!(plan.revision, "V2");
    assert_eq!(plan.urls.base_url, "http://h/V2");
    match plan_patch(urls("http://h/L", "b"), &None) {
        Err(WizPatchError::NoRevision(url)) => assert_eq!(url, "http://h/L"),
        other => panic!("{other:?}"),
    }
    // The replacement takes the marker away.
    match plan_patch(urls("http://h/WizPatcher/W/L", "b"), &Some("x".to_string())) {
        Err(WizPatchError::NoRevision(url)) => assert_eq!(url, "http://h/xizPatcher/x/L"),
        other => panic!("{other:?}"),
    }
}

#[test]
fn queue_holds_two_records_for_each_worker() {
    assert_eq!(queue_capacity(1), 2);
    assert_eq!(queue_capacity(5), 10);
}
