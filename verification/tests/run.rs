use std::collections::BTreeMap;

use wizpatch::patcher::{process_one, Event, Step};
use wizpatch::{Crc32, FileRecord, PatchStats, Tally, WizPatchError};

type Files = BTreeMap<String, Vec<u8>>;

fn crc(bytes: &[u8]) -> u32 {
    let mut crc = Crc32::new();
    crc.update(bytes);
    crc.finalize()
}

fn served(url: &str) -> Result<Vec<u8>, WizPatchError> {
    if url.ends_with("lost") {
        Err(WizPatchError::Http("404".to_string()))
    } else {
        Ok(url.as_bytes().to_vec())
    }
}

fn record(name: &str) -> FileRecord {
    FileRecord {
        src_file_name: name.to_string(),
        crc: crc(format!("http://b/{name}").as_bytes()) as u64,
    }
}

/// Works on `jobs` records at a time, one step of each in turn.
fn run(records: &[FileRecord], files: &mut Files, download_missing: bool, jobs: usize) -> PatchStats {
    let mut tally = Tally::new(records.len());
    let mut waiting = records.iter();
    let mut running: Vec<(&FileRecord, String, Event)> = Vec::new();
    loop {
        while running.len() < jobs {
            match waiting.next() {
                Some(rec) => running.push((rec, String::new(), Event::Taken)),
                None => break,
            }
        }
        if running.is_empty() {
            return tally.stats();
        }
        let mut still_running = Vec::new();
        for (rec, path, event) in running.into_iter().rev() {
            match process_one("http://b", rec, download_missing, event) {
                Step::LookFor(path) => {
                    let exists = files.contains_key(&path);
                    still_running.push((rec, path, Event::Exists(exists)));
                }
                Step::ReadCrc => {
                    let local = if path.ends_with("unreadable") { None } else { Some(crc(&files[&path])) };
                    still_running.push((rec, path, Event::LocalCrc(local)));
                }
                Step::Fetch(url) => {
                    let reply = served(&url).map(|body| {
                        let len = body.len() as u64;
                        files.insert(path.clone(), body);
                        len
                    });
                    still_running.push((rec, path, Event::Download(reply)));
                }
                Step::Finished(outcome) => {
                    tally.record(&outcome);
                }
            }
        }
        running = still_running;
    }
}

fn counts(s: &PatchStats) -> [usize; 5] {
    [s.total, s.downloaded, s.up_to_date, s.skipped_missing, s.failed]
}

fn records() -> Vec<FileRecord> {
    vec![record("Data/a"), record("PatchClient/x"), record("Windows/Bin/b"), record("c"), record("d")]
}

fn directory() -> Files {
    let mut files = Files::new();
    files.insert("Data/a".to_string(), b"http://b/Data/a".to_vec());
    files.insert("c".to_string(), b"old".to_vec());
    files.insert("other".to_string(), b"kept".to_vec());
    files
}

#[test]
fn number_of_workers_changes_nothing_else() {
    let mut list = records();
    list.push(record("lost"));
    list.push(record("unreadable"));
    for download_missing in [true, false] {
        let mut one = directory();
        one.insert("unreadable".to_string(), b"http://b/unreadable".to_vec());
        let start = one.clone();
        let expected = run(&list, &mut one, download_missing, 1);
        for jobs in 2..8 {
            let mut many = start.clone();
            assert_eq!(counts(&run(&list, &mut many, download_missing, jobs)), counts(&expected));
            assert_eq!(many, one);
        }
    }
}

#[test]
fn second_run_finds_all_up_to_date() {
    let list = records();
    let mut files = directory();
    let first = run(&list, &mut files, true, 3);
    assert_eq!(counts(&first), [5, 3, 1, 0, 0]);
    let left = files.clone();
    let second = run(&list, &mut files, true, 2);
    assert_eq!(counts(&second), [5, 0, 4, 0, 0]);
    assert_eq!(files, left);
    assert_eq!(files["other"], b"kept".to_vec());
}

#[test]
fn unreadable_file_is_fetched() {
    let mut files = Files::new();
    files.insert("unreadable".to_string(), b"http://b/unreadable".to_vec());
    for download_missing in [true, false] {
        let stats = run(&[record("unreadable")], &mut files, download_missing, 1);
        assert_eq!(counts(&stats), [1, 1, 0, 0, 0]);
    }
}

#[test]
fn only_files_already_present_are_updated() {
    let mut files = directory();
    let stats = run(&records(), &mut files, false, 2);
    assert_eq!(counts(&stats), [5, 1, 1, 2, 0]);
    let mut expected = directory();
    expected.insert("c".to_string(), b"http://b/c".to_vec());
    assert_eq!(files, expected);
}
