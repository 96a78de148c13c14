//! Revisions in patch URLs and local paths of file records.

use crate::errors;
use crate::errors::WizPatchError;
use crate::text;
use crate::text::{chars_of, find_slash, find_text, matches_ignoring_case};
use vstd::prelude::*;
use vstd::string::*;

verus! {

/// The part of a patch URL that the revision follows.
pub open spec fn marker() -> Seq<char> {
    "WizPatcher/"@
}

/// The revision that a patch URL names: what stands between the first `WizPatcher/` and the
/// next `/`, or the end.
pub open spec fn revision_of(url: Seq<char>) -> Option<Seq<char>> {
    match text::first_index(url, marker()) {
        Some(i) => Some(text::first_segment(url.skip(i + marker().len()))),
        None => None,
    }
}

/// Extracts the revision identifier from a patch URL.
///
/// Patch URLs contain `WizPatcher/<revision>/...`; this returns `<revision>`.
pub fn revision_from_url(url: &str) -> (r: Result<String, WizPatchError>)
    ensures
        errors::viewed(r) == (match revision_of(url@) {
            Some(revision) => Ok::<Seq<char>, errors::ErrorView>(revision),
            None => Err(errors::ErrorView::NoRevision(url@)),
        }),
{
    let chars: Vec<char> = chars_of(url);
    let pattern: Vec<char> = chars_of("WizPatcher/");
    match find_text(&chars, &pattern) {
        Some(i) => {
            assert(i + pattern.len() <= chars.len());
            let start: usize = i + pattern.len();
            let end: usize = find_slash(&chars, start);
            assert(url@.subrange(start as int, end as int) =~= text::first_segment(
                url@.skip(start as int),
            ));
            Ok(url.substring_char(start, end).to_owned())
        },
        None => Err(WizPatchError::NoRevision(url.to_owned())),
    }
}

/// The leading path segments that name a platform, in any mix of capital and small letters.
pub open spec fn is_platform_name(s: Seq<char>) -> bool {
    ||| text::same_ignoring_case(s, "windows"@)
    ||| text::same_ignoring_case(s, "macos"@)
    ||| text::same_ignoring_case(s, "steam"@)
}

/// A record's path below the game directory: the path without a leading platform segment.
pub open spec fn local_path(path: Seq<char>) -> Seq<char> {
    let n = text::segment_len(path);
    if n < path.len() && is_platform_name(path.take(n)) {
        path.skip(n + 1)
    } else {
        path
    }
}

/// Strips a leading platform-prefix segment (`Windows`, `MacOS`, `Steam`) from a
/// record's `SrcFileName` so it can be joined with the local game directory.
pub fn fix_src_path(path: &str) -> (r: &str)
    ensures
        r@ == local_path(path@),
{
    let chars: Vec<char> = chars_of(path);
    let end: usize = find_slash(&chars, 0);
    assert(path@.skip(0) =~= path@);
    if end == chars.len() {
        return path;
    }
    let first: &str = path.substring_char(0, end);
    assert(first@ =~= path@.take(end as int));
    if matches_ignoring_case(first, "windows") || matches_ignoring_case(first, "macos")
        || matches_ignoring_case(first, "steam") {
        let rest: &str = path.substring_char(end + 1, chars.len());
        assert(rest@ =~= path@.skip(end + 1));
        rest
    } else {
        path
    }
}

/// No part of the marker looks like its start.
pub proof fn lemma_marker_letters()
    ensures
        marker().len() == 11,
        marker()[0] == 'W',
        marker()[10] == '/',
        forall|k: int| 0 < k < 11 ==> marker()[k] != 'W',
{
    reveal_strlit("WizPatcher/");
}

/// Behind a text that holds no marker, the marker that follows it is the first.
pub proof fn lemma_marker_is_first(before: Seq<char>, after: Seq<char>)
    requires
        text::first_index(before, marker()) is None,
    ensures
        text::is_first(before + marker() + after, marker(), before.len() as int),
{
    lemma_marker_letters();
    let m = marker();
    let url = before + m + after;
    let n = before.len() as int;
    assert(url.subrange(n, n + m.len()) =~= m);
    assert forall|j: int| 0 <= j < n implies !text::occurs_at(url, m, j) by {
        if text::occurs_at(url, m, j) {
            let found = url.subrange(j, j + m.len());
            if j + m.len() <= n {
                assert(found =~= before.subrange(j, j + m.len()));
                assert(text::occurs_at(before, m, j));
            } else {
                assert(found[n - j] == url[n]);
                assert(url[n] == m[0]);
            }
        }
    }
}

/// A URL of the form `<before>WizPatcher/<revision>/...` names `<revision>`, where no marker
/// stands before that one.
pub proof fn law_revision_of_patch_url(before: Seq<char>, revision: Seq<char>, rest: Seq<char>)
    requires
        text::first_index(before, marker()) is None,
        !revision.contains('/'),
        rest.len() > 0 ==> rest[0] == '/',
    ensures
        revision_of(before + marker() + revision + rest) == Some(revision),
{
    let tail = revision + rest;
    let url = before + marker() + tail;
    assert(url =~= before + marker() + revision + rest);
    lemma_marker_is_first(before, tail);
    text::lemma_first_index(url, marker(), before.len() as int);
    assert(url.skip(before.len() as int + marker().len()) =~= tail);
    assert forall|j: int| 0 <= j < revision.len() implies tail[j] != '/' by {
        assert(tail[j] == revision[j]);
        assert(revision.contains(revision[j]));
    }
    text::lemma_segment_len(tail, revision.len() as int);
    assert(tail.take(revision.len() as int) =~= revision);
}

/// A revision is one path segment.
pub proof fn law_revision_has_no_slash(url: Seq<char>)
    ensures
        revision_of(url) matches Some(revision) ==> !revision.contains('/'),
{
    if let Some(i) = text::first_index(url, marker()) {
        text::lemma_first_segment(url.skip(i + marker().len()));
    }
}

/// A path that starts with a platform's name and a `/` loses both.
pub proof fn law_platform_segment_is_stripped(first: Seq<char>, rest: Seq<char>)
    requires
        is_platform_name(first),
    ensures
        local_path(first + seq!['/'] + rest) == rest,
{
    lemma_platform_name_has_no_slash(first);
    let path = first + seq!['/'] + rest;
    lemma_joined_segment(first, rest);
    assert(path.take(first.len() as int) =~= first);
    assert(path.skip(first.len() as int + 1) =~= rest);
}

/// A path whose first segment names no platform, or that is one segment, stays as it is.
pub proof fn law_other_paths_are_kept(path: Seq<char>)
    ensures
        !is_platform_name(text::first_segment(path)) ==> local_path(path) == path,
        !path.contains('/') ==> local_path(path) == path,
{
    text::lemma_first_segment(path);
    if text::segment_len(path) < path.len() {
        assert(path.contains(path[text::segment_len(path)]));
    }
}

/// The first segment of two texts joined by a `/` is the first text, where it holds no `/`.
proof fn lemma_joined_segment(first: Seq<char>, rest: Seq<char>)
    requires
        !first.contains('/'),
    ensures
        text::segment_len(first + seq!['/'] + rest) == first.len(),
{
    let path = first + seq!['/'] + rest;
    assert forall|j: int| 0 <= j < first.len() implies path[j] != '/' by {
        assert(path[j] == first[j]);
        assert(first.contains(first[j]));
    }
    text::lemma_segment_len(path, first.len() as int);
}

/// The platforms' names hold letters alone.
proof fn lemma_platform_name_has_no_slash(s: Seq<char>)
    requires
        is_platform_name(s),
    ensures
        !s.contains('/'),
{
    reveal_strlit("windows");
    reveal_strlit("macos");
    reveal_strlit("steam");
    assert forall|i: int| 0 <= i < s.len() implies s[i] != '/' by {
        assert(text::lower_code(s[i]) >= 97);
    }
}

/// The revision is the segment behind the first `WizPatcher/` of a URL, whole and nothing else. A
/// URL without `WizPatcher/` has none, and the error names that URL.
pub proof fn law_revision_is_the_segment_behind_the_marker(
    url: &str,
    before: Seq<char>,
    revision: Seq<char>,
    rest: Seq<char>,
    r: Result<String, WizPatchError>,
)
    requires
        call_ensures(revision_from_url, (url,), r),
    ensures
        ({
            &&& url@ == before + "WizPatcher/"@ + revision + rest
            &&& forall|j: int|
                0 <= j < before.len() ==> #[trigger] url@.subrange(j, j + 11) != "WizPatcher/"@
            &&& !revision.contains('/')
            &&& rest.len() > 0 ==> rest[0] == '/'
        }) ==> (r matches Ok(text) && text@ == revision),
        (forall|j: int|
            0 <= j <= url@.len() - 11 ==> #[trigger] url@.subrange(j, j + 11) != "WizPatcher/"@)
            ==> (r matches Err(WizPatchError::NoRevision(text)) && text@ == url@),
{
    reveal_strlit("WizPatcher/");
    let m = "WizPatcher/"@;
    if url@ == before + m + revision + rest && (forall|j: int|
        0 <= j < before.len() ==> #[trigger] url@.subrange(j, j + 11) != m) && !revision.contains(
        '/',
    ) && (rest.len() > 0 ==> rest[0] == '/') {
        let i = before.len() as int;
        assert(url@.subrange(i, i + m.len()) =~= m);
        assert forall|j: int| 0 <= j < i implies #[trigger] url@.subrange(j, j + m.len()) != m by {
            assert(url@.subrange(j, j + 11) != m);
        }
        text::lemma_first_place(url@, m, i);
        assert(url@.skip(i + m.len()) =~= revision + rest);
        text::lemma_segment_of_joined(revision, rest);
    }
    if forall|j: int| 0 <= j <= url@.len() - 11 ==> #[trigger] url@.subrange(j, j + 11) != m {
        assert forall|j: int| 0 <= j <= url@.len() - m.len() implies #[trigger] url@.subrange(
            j,
            j + m.len(),
        ) != m by {
            assert(url@.subrange(j, j + 11) != m);
        }
        text::lemma_no_place(url@, m);
    }
}

/// The letters of the platforms' names.
pub proof fn lemma_platform_names(s: Seq<char>)
    ensures
        is_platform_name(s) <==> {
            ||| s.len() == 7 && forall|i: int|
                0 <= i < 7 ==> #[trigger] s[i] == "windows"@[i] || s[i] == "WINDOWS"@[i]
            ||| s.len() == 5 && forall|i: int|
                0 <= i < 5 ==> #[trigger] s[i] == "macos"@[i] || s[i] == "MACOS"@[i]
            ||| s.len() == 5 && forall|i: int|
                0 <= i < 5 ==> #[trigger] s[i] == "steam"@[i] || s[i] == "STEAM"@[i]
        },
{
    reveal_strlit("windows");
    reveal_strlit("WINDOWS");
    reveal_strlit("macos");
    reveal_strlit("MACOS");
    reveal_strlit("steam");
    reveal_strlit("STEAM");
    text::lemma_spelled(s, "windows"@, "WINDOWS"@);
    text::lemma_spelled(s, "macos"@, "MACOS"@);
    text::lemma_spelled(s, "steam"@, "STEAM"@);
}

/// The local path of a path with a `/` is what stands behind the first `/` where the first segment
/// is `windows`, `macos` or `steam` in any mix of capital and small letters, and the whole path
/// otherwise.
pub proof fn lemma_local_path(first: Seq<char>, rest: Seq<char>)
    requires
        !first.contains('/'),
    ensures
        local_path(first + seq!['/'] + rest) == (if is_platform_name(first) {
            rest
        } else {
            first + seq!['/'] + rest
        }),
{
    let path = first + seq!['/'] + rest;
    lemma_joined_segment(first, rest);
    assert(path.take(first.len() as int) =~= first);
    assert(path.skip(first.len() as int + 1) =~= rest);
}

/// A leading segment `windows`, `macos` or `steam`, in any mix of capital and small letters, is
/// stripped with the `/` behind it. Any other path is kept, and so is one without a `/`.
pub proof fn law_leading_platform_alone_is_stripped(
    path: &str,
    first: Seq<char>,
    rest: Seq<char>,
    r: &str,
)
    requires
        call_ensures(fix_src_path, (path,), r),
    ensures
        !path@.contains('/') ==> r@ == path@,
        path@ == first + seq!['/'] + rest && !first.contains('/') ==> r@ == (if {
            ||| first.len() == 7 && forall|i: int|
                0 <= i < 7 ==> #[trigger] first[i] == "windows"@[i] || first[i] == "WINDOWS"@[i]
            ||| first.len() == 5 && forall|i: int|
                0 <= i < 5 ==> #[trigger] first[i] == "macos"@[i] || first[i] == "MACOS"@[i]
            ||| first.len() == 5 && forall|i: int|
                0 <= i < 5 ==> #[trigger] first[i] == "steam"@[i] || first[i] == "STEAM"@[i]
        } {
            rest
        } else {
            path@
        }),
{
    law_other_paths_are_kept(path@);
    lemma_platform_names(first);
    if path@ == first + seq!['/'] + rest && !first.contains('/') {
        lemma_local_path(first, rest);
    }
}

} // verus!
