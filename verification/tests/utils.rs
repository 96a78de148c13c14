use wizpatch::{fix_src_path, revision_from_url, WizPatchError};

#[test]
fn extracts_revision() {
    let url = "http://example.com/WizPatcher/V_r777777.WizardDev/Live/_FileList.bin";
    assert_eq!(revision_from_url(url).unwrap(), "V_r777777.WizardDev");
}

#[test]
fn revision_may_end_the_url() {
    assert_eq!(revision_from_url("http://h/WizPatcher/V_r1").unwrap(), "V_r1");
    assert_eq!(revision_from_url("WizPatcher/").unwrap(), "");
    assert_eq!(revision_from_url("WizPatcher//x").unwrap(), "");
}

#[test]
fn first_marker_counts() {
    assert_eq!(revision_from_url("WizPatcher/a/WizPatcher/b/").unwrap(), "a");
    assert_eq!(revision_from_url("WizPatcheWizPatcher/b/").unwrap(), "b");
    assert_eq!(revision_from_url("h\u{f6}st/WizPatcher/r\u{e9}v/x").unwrap(), "r\u{e9}v");
}

#[test]
fn url_without_marker_has_no_revision() {
    for url in ["", "http://example.com/", "http://h/WizPatcher", "http://h/wizpatcher/V/"] {
        match revision_from_url(url) {
            Err(WizPatchError::NoRevision(shown)) => assert_eq!(shown, url),
            other => panic!("{other:?}"),
        }
    }
}

#[test]
fn platform_segment_is_stripped() {
    assert_eq!(fix_src_path("Windows/Bin/WizardGraphicalClient.exe"), "Bin/WizardGraphicalClient.exe");
    assert_eq!(fix_src_path("MacOS/a"), "a");
    assert_eq!(fix_src_path("steam/a/b"), "a/b");
    assert_eq!(fix_src_path("wInDoWs/x"), "x");
    assert_eq!(fix_src_path("Windows/"), "");
    assert_eq!(fix_src_path("Windows/Windows/x"), "Windows/x");
}

#[test]
fn other_paths_are_kept() {
    for path in ["", "/", "Windows", "steam", "Data/Windows/x", "/Windows/x", "Window/x", "Windows2/x", "\u{212a}/x"] {
        assert_eq!(fix_src_path(path), path);
    }
}
