//! Which revision is patched, and what is done about each record of its file list.

use crate::enums::{Country, Game, Platform};
use crate::errors;
use crate::errors::WizPatchError;
use crate::text;
use crate::text::{chars_of, find_slash, matches_ignoring_case, replace};
use crate::utils;
use crate::utils::{fix_src_path, revision_from_url};
use crate::webdriver;
use crate::webdriver::PatchUrls;
use vstd::prelude::*;
use vstd::string::*;

verus! {

/// What to patch and how.
#[derive(Debug)]
pub struct PatchOptions {
    pub game: Game,
    pub platform: Platform,
    pub country: Country,
    pub revision: Option<String>,
    pub download_missing: bool,
    pub game_path: String,
    /// Concurrent download workers.
    pub jobs: usize,
}

/// The content of [`PatchOptions`].
pub ghost struct PatchOptionsView {
    pub game: Game,
    pub platform: Platform,
    pub country: Country,
    pub revision: Option<Seq<char>>,
    pub download_missing: bool,
    pub game_path: Seq<char>,
    pub jobs: nat,
}

impl View for PatchOptions {
    type V = PatchOptionsView;

    open spec fn view(&self) -> PatchOptionsView {
        PatchOptionsView {
            game: self.game,
            platform: self.platform,
            country: self.country,
            revision: optional_text(self.revision),
            download_missing: self.download_missing,
            game_path: self.game_path@,
            jobs: self.jobs as nat,
        }
    }
}

impl Clone for PatchOptions {
    fn clone(&self) -> (r: Self)
        ensures
            r@ == self@,
    {
        PatchOptions {
            game: self.game,
            platform: self.platform,
            country: self.country,
            revision: match &self.revision {
                Some(revision) => Some(revision.clone()),
                None => None,
            },
            download_missing: self.download_missing,
            game_path: self.game_path.clone(),
            jobs: self.jobs,
        }
    }
}

/// An entry of a file list.
#[derive(Debug)]
pub struct FileRecord {
    pub src_file_name: String,
    pub crc: u64,
}

/// The content of a [`FileRecord`].
pub ghost struct FileRecordView {
    pub src_file_name: Seq<char>,
    pub crc: u64,
}

impl View for FileRecord {
    type V = FileRecordView;

    open spec fn view(&self) -> FileRecordView {
        FileRecordView { src_file_name: self.src_file_name@, crc: self.crc }
    }
}

/// What became of a record.
#[derive(Debug)]
pub enum Outcome {
    /// The file was fetched; the number of its bytes.
    Downloaded(u64),
    /// The local file has the record's checksum.
    UpToDate,
    /// There is no local file and missing files are not fetched.
    SkippedMissing,
    /// The record belongs to the patch client itself.
    SkippedPatchClient,
    /// The file could not be fetched.
    Failed(WizPatchError),
}

/// The content of an [`Outcome`].
pub ghost enum OutcomeView {
    Downloaded(u64),
    UpToDate,
    SkippedMissing,
    SkippedPatchClient,
    Failed(errors::ErrorView),
}

impl View for Outcome {
    type V = OutcomeView;

    open spec fn view(&self) -> OutcomeView {
        match self {
            Outcome::Downloaded(bytes) => OutcomeView::Downloaded(*bytes),
            Outcome::UpToDate => OutcomeView::UpToDate,
            Outcome::SkippedMissing => OutcomeView::SkippedMissing,
            Outcome::SkippedPatchClient => OutcomeView::SkippedPatchClient,
            Outcome::Failed(error) => OutcomeView::Failed(error@),
        }
    }
}

/// What is learned about a record while it is processed.
#[derive(Debug)]
pub enum Event {
    /// The record was taken from the list.
    Taken,
    /// Whether there is a local file.
    Exists(bool),
    /// The local file's checksum, or none where it could not be read.
    LocalCrc(Option<u32>),
    /// How the download ended: the number of bytes written, or the error.
    Download(Result<u64, WizPatchError>),
}

/// The content of an [`Event`].
pub ghost enum EventView {
    Taken,
    Exists(bool),
    LocalCrc(Option<u32>),
    Download(Result<u64, errors::ErrorView>),
}

impl View for Event {
    type V = EventView;

    open spec fn view(&self) -> EventView {
        match self {
            Event::Taken => EventView::Taken,
            Event::Exists(exists) => EventView::Exists(*exists),
            Event::LocalCrc(crc) => EventView::LocalCrc(*crc),
            Event::Download(Ok(bytes)) => EventView::Download(Ok(*bytes)),
            Event::Download(Err(error)) => EventView::Download(Err(error@)),
        }
    }
}

/// What to do next about a record.
#[derive(Debug)]
pub enum Step {
    /// Look for the local file with this path below the game directory.
    LookFor(String),
    /// Take the checksum of the local file.
    ReadCrc,
    /// Fetch this URL into the local file.
    Fetch(String),
    /// Nothing is left to do.
    Finished(Outcome),
}

/// The content of a [`Step`].
pub ghost enum StepView {
    LookFor(Seq<char>),
    ReadCrc,
    Fetch(Seq<char>),
    Finished(OutcomeView),
}

impl View for Step {
    type V = StepView;

    open spec fn view(&self) -> StepView {
        match self {
            Step::LookFor(path) => StepView::LookFor(path@),
            Step::ReadCrc => StepView::ReadCrc,
            Step::Fetch(url) => StepView::Fetch(url@),
            Step::Finished(outcome) => StepView::Finished(outcome@),
        }
    }
}

/// A file name in the directory of the patch client: its first segment is `patchclient`, in any
/// mix of capital and small letters.
pub open spec fn is_patch_client(name: Seq<char>) -> bool {
    text::same_ignoring_case(text::first_segment(name), "patchclient"@)
}

/// The URL of a file below the base URL.
pub open spec fn file_url(base_url: Seq<char>, name: Seq<char>) -> Seq<char> {
    base_url + "/"@ + name
}

/// What to do about a record with this name and checksum once `event` is known.
pub open spec fn next_step(
    base_url: Seq<char>,
    name: Seq<char>,
    crc: u64,
    download_missing: bool,
    event: EventView,
) -> StepView {
    match event {
        EventView::Taken => if is_patch_client(name) {
            StepView::Finished(OutcomeView::SkippedPatchClient)
        } else {
            StepView::LookFor(utils::local_path(name))
        },
        EventView::Exists(true) => StepView::ReadCrc,
        EventView::Exists(false) => if download_missing {
            StepView::Fetch(file_url(base_url, name))
        } else {
            StepView::Finished(OutcomeView::SkippedMissing)
        },
        EventView::LocalCrc(local_crc) => if local_crc is Some && local_crc->0 == crc {
            StepView::Finished(OutcomeView::UpToDate)
        } else {
            StepView::Fetch(file_url(base_url, name))
        },
        EventView::Download(Ok(bytes)) => StepView::Finished(OutcomeView::Downloaded(bytes)),
        EventView::Download(Err(error)) => StepView::Finished(OutcomeView::Failed(error)),
    }
}

/// Whether a file name lies in the directory of the patch client.
fn in_patch_client(name: &str) -> (r: bool)
    ensures
        r == is_patch_client(name@),
{
    let chars: Vec<char> = chars_of(name);
    let end: usize = find_slash(&chars, 0);
    assert(name@.skip(0) =~= name@);
    let first: &str = name.substring_char(0, end);
    assert(first@ =~= text::first_segment(name@));
    matches_ignoring_case(first, "patchclient")
}

/// The URL under which a record's file is fetched.
fn url_of(base_url: &str, name: &str) -> (r: String)
    ensures
        r@ == file_url(base_url@, name@),
{
    let mut url: String = base_url.to_owned();
    url.append("/");
    url.append(name);
    url
}

/// Decides what to do about a record once `event` is known. Processing starts with
/// [`Event::Taken`]; each step's result is the next event, until a step is [`Step::Finished`].
pub fn process_one(base_url: &str, rec: &FileRecord, download_missing: bool, event: Event) -> (r:
    Step)
    ensures
        r@ == next_step(base_url@, rec.src_file_name@, rec.crc, download_missing, event@),
{
    let name: &str = rec.src_file_name.as_str();
    match event {
        Event::Taken => {
            if in_patch_client(name) {
                Step::Finished(Outcome::SkippedPatchClient)
            } else {
                Step::LookFor(fix_src_path(name).to_owned())
            }
        },
        Event::Exists(exists) => {
            if exists {
                Step::ReadCrc
            } else if download_missing {
                Step::Fetch(url_of(base_url, name))
            } else {
                Step::Finished(Outcome::SkippedMissing)
            }
        },
        Event::LocalCrc(Some(local_crc)) => {
            if local_crc as u64 == rec.crc {
                Step::Finished(Outcome::UpToDate)
            } else {
                Step::Fetch(url_of(base_url, name))
            }
        },
        Event::LocalCrc(None) => Step::Fetch(url_of(base_url, name)),
        Event::Download(Ok(bytes)) => Step::Finished(Outcome::Downloaded(bytes)),
        Event::Download(Err(error)) => Step::Finished(Outcome::Failed(error)),
    }
}

/// The URLs of the revision that is to be patched: those of the server, in which the wanted
/// revision, if one is given, stands wherever the server's own did.
pub open spec fn resolved(
    live: webdriver::PatchUrlsView,
    revision: Option<Seq<char>>,
) -> Result<webdriver::PatchUrlsView, errors::ErrorView> {
    match (revision, utils::revision_of(live.file_list_url)) {
        (None, _) => Ok(live),
        (Some(_), None) => Err(errors::ErrorView::NoRevision(live.file_list_url)),
        (Some(wanted), Some(current)) => Ok(
            webdriver::PatchUrlsView {
                file_list_url: text::replaced(live.file_list_url, current, wanted),
                base_url: text::replaced(live.base_url, current, wanted),
            },
        ),
    }
}

/// The text in an optional string.
pub open spec fn optional_text(s: Option<String>) -> Option<Seq<char>> {
    match s {
        Some(s) => Some(s@),
        None => None,
    }
}

/// Puts the wanted revision, if one is given, in the place of the server's own.
pub fn resolve_urls(live: PatchUrls, revision: &Option<String>) -> (r: Result<
    PatchUrls,
    WizPatchError,
>)
    ensures
        errors::viewed(r) == resolved(live@, optional_text(*revision)),
{
    match revision {
        None => Ok(live),
        Some(wanted) => match revision_from_url(live.file_list_url.as_str()) {
            Ok(current) => Ok(
                PatchUrls {
                    file_list_url: replace(
                        live.file_list_url.as_str(),
                        current.as_str(),
                        wanted.as_str(),
                    ),
                    base_url: replace(live.base_url.as_str(), current.as_str(), wanted.as_str()),
                },
            ),
            Err(e) => Err(e),
        },
    }
}

/// The URLs that a patch works with and the revision that they name.
#[derive(Debug)]
pub struct PatchPlan {
    pub urls: PatchUrls,
    pub revision: String,
}

/// The texts of a [`PatchPlan`].
pub ghost struct PatchPlanView {
    pub urls: webdriver::PatchUrlsView,
    pub revision: Seq<char>,
}

impl View for PatchPlan {
    type V = PatchPlanView;

    open spec fn view(&self) -> PatchPlanView {
        PatchPlanView { urls: self.urls@, revision: self.revision@ }
    }
}

/// The plan for a patch from the server's URLs and the wanted revision.
pub open spec fn planned(
    live: webdriver::PatchUrlsView,
    revision: Option<Seq<char>>,
) -> Result<PatchPlanView, errors::ErrorView> {
    match resolved(live, revision) {
        Err(e) => Err(e),
        Ok(urls) => match utils::revision_of(urls.file_list_url) {
            Some(named) => Ok(PatchPlanView { urls, revision: named }),
            None => Err(errors::ErrorView::NoRevision(urls.file_list_url)),
        },
    }
}

/// Plans a patch: settles the URLs and the revision that they name.
pub fn plan_patch(live: PatchUrls, revision: &Option<String>) -> (r: Result<
    PatchPlan,
    WizPatchError,
>)
    ensures
        errors::viewed(r) == planned(live@, optional_text(*revision)),
{
    match resolve_urls(live, revision) {
        Err(e) => Err(e),
        Ok(urls) => match revision_from_url(urls.file_list_url.as_str()) {
            Ok(named) => Ok(PatchPlan { urls, revision: named }),
            Err(e) => Err(e),
        },
    }
}

/// How many records may wait for the workers: two for each of them.
pub fn queue_capacity(jobs: usize) -> (r: usize)
    requires
        1 <= jobs,
        jobs * 2 <= usize::MAX,
    ensures
        r == jobs * 2,
{
    jobs * 2
}

/// What a run over one record meets: whether there is a local file, its checksum where it can
/// be read, and how a download ends.
pub ghost struct World {
    pub exists: bool,
    pub local_crc: Option<u32>,
    pub download: Result<u64, errors::ErrorView>,
}

/// The event with which a step that is not the last ends.
pub open spec fn answered(world: World, step: StepView) -> EventView {
    match step {
        StepView::LookFor(_) => EventView::Exists(world.exists),
        StepView::ReadCrc => EventView::LocalCrc(world.local_crc),
        _ => EventView::Download(world.download),
    }
}

/// The outcome that is reached from `event` in no more than `n` further steps, if any is.
pub open spec fn outcome_after(
    base_url: Seq<char>,
    name: Seq<char>,
    crc: u64,
    download_missing: bool,
    world: World,
    event: EventView,
    n: nat,
) -> Option<OutcomeView>
    decreases n,
{
    match next_step(base_url, name, crc, download_missing, event) {
        StepView::Finished(outcome) => Some(outcome),
        step => if n == 0 {
            None
        } else {
            outcome_after(
                base_url,
                name,
                crc,
                download_missing,
                world,
                answered(world, step),
                (n - 1) as nat,
            )
        },
    }
}

/// What becomes of a record: what belongs to the patch client is left alone, a missing file is
/// skipped unless missing files are wanted, a file with the record's checksum is left alone, and
/// anything else is downloaded.
pub open spec fn record_outcome(
    name: Seq<char>,
    crc: u64,
    download_missing: bool,
    world: World,
) -> OutcomeView {
    if is_patch_client(name) {
        OutcomeView::SkippedPatchClient
    } else if !world.exists && !download_missing {
        OutcomeView::SkippedMissing
    } else if world.exists && world.local_crc is Some && world.local_crc->0 == crc {
        OutcomeView::UpToDate
    } else {
        match world.download {
            Ok(bytes) => OutcomeView::Downloaded(bytes),
            Err(error) => OutcomeView::Failed(error),
        }
    }
}

/// A record is done after at most three steps, with the outcome that [`record_outcome`] says.
pub proof fn law_record_outcome(
    base_url: Seq<char>,
    name: Seq<char>,
    crc: u64,
    download_missing: bool,
    world: World,
)
    ensures
        outcome_after(base_url, name, crc, download_missing, world, EventView::Taken, 3) == Some(
            record_outcome(name, crc, download_missing, world),
        ),
{
    reveal_with_fuel(outcome_after, 4);
}

/// A file is fetched only under its own URL, and only where it is missing and missing files are
/// wanted, or where its checksum is not the record's.
pub proof fn law_only_stale_files_are_fetched(
    base_url: Seq<char>,
    name: Seq<char>,
    crc: u64,
    download_missing: bool,
    event: EventView,
)
    ensures
        next_step(base_url, name, crc, download_missing, event) matches StepView::Fetch(url) ==> {
            &&& url == file_url(base_url, name)
            &&& match event {
                EventView::Exists(exists) => !exists && download_missing,
                EventView::LocalCrc(local_crc) => local_crc is None || local_crc->0 != crc,
                _ => false,
            }
        },
{
}

/// Without a wanted revision the server's URLs are kept.
pub proof fn law_no_wanted_revision_keeps_urls(live: webdriver::PatchUrlsView)
    ensures
        resolved(live, None) == Ok::<webdriver::PatchUrlsView, errors::ErrorView>(live),
{
}

/// To want the revision that the server has keeps its URLs.
pub proof fn law_wanting_current_revision_keeps_urls(
    live: webdriver::PatchUrlsView,
    current: Seq<char>,
)
    requires
        utils::revision_of(live.file_list_url) == Some(current),
    ensures
        resolved(live, Some(current)) == Ok::<webdriver::PatchUrlsView, errors::ErrorView>(live),
{
    text::lemma_replaced_by_itself(live.file_list_url, current);
    text::lemma_replaced_by_itself(live.base_url, current);
}

/// A URL up to the end of its first marker.
pub open spec fn through_marker(url: Seq<char>) -> Seq<char> {
    url.take(text::first_index(url, utils::marker())->0 + utils::marker().len())
}

/// What follows the revision in a URL.
pub open spec fn behind_revision(url: Seq<char>, current: Seq<char>) -> Seq<char> {
    url.skip((through_marker(url).len() + current.len()) as int)
}

/// A URL with a revision is what ends with its first marker, and so with a `/`, then the
/// revision, then nothing or what starts with a `/`.
proof fn lemma_url_parts(url: Seq<char>, current: Seq<char>)
    requires
        utils::revision_of(url) == Some(current),
    ensures
        through_marker(url).len() > 0,
        through_marker(url).last() == '/',
        url == through_marker(url) + (current + behind_revision(url, current)),
        !current.contains('/'),
        behind_revision(url, current).len() > 0 ==> behind_revision(url, current)[0] == '/',
{
    let m = utils::marker();
    utils::lemma_marker_letters();
    let i = text::first_index(url, m)->0;
    let k = choose|k: int| text::occurs_at(url, m, k);
    text::lemma_first_exists(url, m, k);
    assert(url.subrange(i, i + m.len())[10] == url[i + 10]);
    let tail = url.skip(i + m.len());
    text::lemma_first_segment(tail);
    assert(current.len() == text::segment_len(tail));
    assert(url =~= through_marker(url) + (current + behind_revision(url, current)));
}

/// Behind a `/` a text without one is replaced on its own.
proof fn lemma_replaced_behind_slash(
    head: Seq<char>,
    tail: Seq<char>,
    from: Seq<char>,
    to: Seq<char>,
)
    requires
        head.len() > 0,
        head.last() == '/',
        from.len() > 0,
        !from.contains('/'),
    ensures
        text::replaced(head + tail, from, to) == text::replaced(head, from, to) + text::replaced(
            tail,
            from,
            to,
        ),
{
    let h = head.drop_last();
    let nothing = Seq::<char>::empty();
    assert(head =~= h + seq!['/'] + nothing);
    assert(head + tail =~= h + seq!['/'] + tail);
    text::lemma_replaced_around_slash(h, nothing, from, to);
    text::lemma_replaced_around_slash(h, tail, from, to);
    assert(text::replaced(nothing, from, to) == nothing);
    assert(text::replaced(head, from, to) =~= text::replaced(h, from, to) + seq!['/']);
}

/// Replacing the revision of a URL replaces it as a whole at its own place, and works on what
/// stands before and behind it on its own. A `/` or the end still follows.
pub proof fn law_replacing_keeps_shape(url: Seq<char>, current: Seq<char>, wanted: Seq<char>)
    requires
        utils::revision_of(url) == Some(current),
        current.len() > 0,
    ensures
        text::replaced(url, current, wanted) == text::replaced(
            through_marker(url),
            current,
            wanted,
        ) + wanted + text::replaced(behind_revision(url, current), current, wanted),
        ({
            let behind = text::replaced(behind_revision(url, current), current, wanted);
            behind.len() > 0 ==> behind[0] == '/'
        }),
{
    let head = through_marker(url);
    let rest = behind_revision(url, current);
    lemma_url_parts(url, current);
    lemma_replaced_behind_slash(head, current + rest, current, wanted);
    lemma_replaced_segment(current, rest, wanted);
    assert(text::replaced(url, current, wanted) =~= text::replaced(head, current, wanted) + wanted
        + text::replaced(rest, current, wanted));
}

/// A segment that is the text to replace is replaced, and a `/` or the end still follows it.
proof fn lemma_replaced_segment(current: Seq<char>, rest: Seq<char>, wanted: Seq<char>)
    requires
        current.len() > 0,
        !current.contains('/'),
        rest.len() > 0 ==> rest[0] == '/',
    ensures
        text::replaced(current + rest, current, wanted) == wanted + text::replaced(
            rest,
            current,
            wanted,
        ),
        ({
            let behind = text::replaced(rest, current, wanted);
            behind.len() > 0 ==> behind[0] == '/'
        }),
{
    let tail = current + rest;
    assert(tail.subrange(0, current.len() as int) =~= current);
    assert(text::occurs_at(tail, current, 0));
    assert(tail.skip(current.len() as int) =~= rest);
    if rest.len() > 0 {
        let after = rest.skip(1);
        assert(rest =~= Seq::<char>::empty() + seq!['/'] + after);
        text::lemma_replaced_around_slash(Seq::empty(), after, current, wanted);
        assert(text::replaced(Seq::empty(), current, wanted) =~= Seq::<char>::empty());
    }
}

/// Once a revision is replaced in a URL, the URL names the wanted one, if the replacement leaves
/// a marker where the first one ended and none before it. The revision must not be empty and the
/// wanted one must be a single segment.
pub proof fn law_pinned_url_names_wanted_revision(
    url: Seq<char>,
    current: Seq<char>,
    wanted: Seq<char>,
)
    requires
        utils::revision_of(url) == Some(current),
        current.len() > 0,
        !wanted.contains('/'),
        ({
            let head = text::replaced(through_marker(url), current, wanted);
            text::first_index(head, utils::marker()) == Some(head.len() - utils::marker().len())
        }),
    ensures
        utils::revision_of(text::replaced(url, current, wanted)) == Some(wanted),
{
    let m = utils::marker();
    utils::lemma_marker_letters();
    law_replacing_keeps_shape(url, current, wanted);
    let head = text::replaced(through_marker(url), current, wanted);
    let behind = text::replaced(behind_revision(url, current), current, wanted);
    let before = head.take(head.len() - m.len());
    let k = choose|k: int| text::occurs_at(head, m, k);
    text::lemma_first_exists(head, m, k);
    assert(head =~= before + m);
    assert(text::first_index(before, m) is None) by {
        if exists|q: int| text::occurs_at(before, m, q) {
            let q = choose|q: int| text::occurs_at(before, m, q);
            assert(head.subrange(q, q + m.len()) =~= before.subrange(q, q + m.len()));
            assert(text::occurs_at(head, m, q));
        }
    }
    utils::law_revision_of_patch_url(before, wanted, behind);
}

/// Where a URL's revision stands nowhere before its own place, replacing it makes the URL name
/// the wanted one.
pub proof fn law_pinned_plain_url_names_wanted_revision(
    url: Seq<char>,
    current: Seq<char>,
    wanted: Seq<char>,
)
    requires
        utils::revision_of(url) == Some(current),
        current.len() > 0,
        !wanted.contains('/'),
        text::first_index(url, current) == Some(through_marker(url).len() as int),
    ensures
        utils::revision_of(text::replaced(url, current, wanted)) == Some(wanted),
{
    let m = utils::marker();
    let i = text::first_index(url, m)->0;
    let k = choose|k: int| text::occurs_at(url, m, k);
    text::lemma_first_exists(url, m, k);
    let p = choose|p: int| text::occurs_at(url, current, p);
    text::lemma_first_exists(url, current, p);
    let head = through_marker(url);
    assert forall|q: int| !text::occurs_at(head, current, q) by {
        if text::occurs_at(head, current, q) {
            assert(url.subrange(q, q + current.len()) =~= head.subrange(q, q + current.len()));
            assert(text::occurs_at(url, current, q));
        }
    }
    text::lemma_replaced_nothing(head, current, wanted);
    assert(head.subrange(i, i + m.len()) =~= url.subrange(i, i + m.len()));
    assert forall|q: int| 0 <= q < i implies !text::occurs_at(head, m, q) by {
        if text::occurs_at(head, m, q) {
            assert(url.subrange(q, q + m.len()) =~= head.subrange(q, q + m.len()));
            assert(text::occurs_at(url, m, q));
        }
    }
    text::lemma_first_index(head, m, i);
    law_pinned_url_names_wanted_revision(url, current, wanted);
}

/// A plan for a wanted revision is one for that revision, on the URLs on which replacing the
/// server's revision by it makes the file list's URL name it.
pub proof fn law_plan_is_for_wanted_revision(
    live: webdriver::PatchUrlsView,
    current: Seq<char>,
    wanted: Seq<char>,
)
    requires
        utils::revision_of(live.file_list_url) == Some(current),
        current.len() > 0,
        !wanted.contains('/'),
        ({
            let head = text::replaced(through_marker(live.file_list_url), current, wanted);
            text::first_index(head, utils::marker()) == Some(head.len() - utils::marker().len())
        }),
    ensures
        planned(live, Some(wanted)) == Ok::<PatchPlanView, errors::ErrorView>(
            PatchPlanView {
                urls: webdriver::PatchUrlsView {
                    file_list_url: text::replaced(live.file_list_url, current, wanted),
                    base_url: text::replaced(live.base_url, current, wanted),
                },
                revision: wanted,
            },
        ),
{
    law_pinned_url_names_wanted_revision(live.file_list_url, current, wanted);
}

/// A plan without a wanted revision is one for the server's, on the server's URLs.
pub proof fn law_plan_is_for_current_revision(
    live: webdriver::PatchUrlsView,
    current: Seq<char>,
)
    requires
        utils::revision_of(live.file_list_url) == Some(current),
    ensures
        planned(live, None) == Ok::<PatchPlanView, errors::ErrorView>(
            PatchPlanView { urls: live, revision: current },
        ),
{
}

/// The letters of the patch client's directory.
pub proof fn lemma_patch_client(first: Seq<char>, rest: Seq<char>)
    requires
        !first.contains('/'),
        rest.len() > 0 ==> rest[0] == '/',
    ensures
        is_patch_client(first + rest) <==> first.len() == 11 && forall|i: int|
            0 <= i < 11 ==> #[trigger] first[i] == "patchclient"@[i] || first[i]
                == "PATCHCLIENT"@[i],
{
    reveal_strlit("patchclient");
    reveal_strlit("PATCHCLIENT");
    text::lemma_segment_of_joined(first, rest);
    text::lemma_spelled(first, "patchclient"@, "PATCHCLIENT"@);
}

/// A record that is taken is left alone as the patch client's exactly where its name up to the
/// first `/` is `patchclient`, in any mix of capital and small letters. Any other is looked for.
pub proof fn law_patch_client_alone_is_left_alone(
    base_url: &str,
    rec: &FileRecord,
    download_missing: bool,
    first: Seq<char>,
    rest: Seq<char>,
    step: Step,
)
    requires
        call_ensures(process_one, (base_url, rec, download_missing, Event::Taken), step),
        rec.src_file_name@ == first + rest,
        !first.contains('/'),
        rest.len() > 0 ==> rest[0] == '/',
    ensures
        if first.len() == 11 && forall|i: int|
            0 <= i < 11 ==> #[trigger] first[i] == "patchclient"@[i] || first[i]
                == "PATCHCLIENT"@[i] {
            step matches Step::Finished(Outcome::SkippedPatchClient)
        } else {
            step is LookFor
        },
{
    lemma_patch_client(first, rest);
}

/// No step but the first leaves a record to the patch client, and no step but the first looks for
/// a file.
pub proof fn law_record_is_looked_for_once(
    base_url: &str,
    rec: &FileRecord,
    download_missing: bool,
    event: Event,
    step: Step,
)
    requires
        call_ensures(process_one, (base_url, rec, download_missing, event), step),
    ensures
        event is Taken <==> {
            ||| step is LookFor
            ||| step matches Step::Finished(Outcome::SkippedPatchClient)
        },
{
}

/// Whether missing files are wanted or not, the file that is looked for is that under the record's
/// name without a leading `windows/`, `macos/` or `steam/`, in any mix of capital and small
/// letters: what stands behind it, or the whole name where there is none.
pub proof fn law_file_is_looked_for_without_its_platform(
    base_url: &str,
    rec: &FileRecord,
    download_missing: bool,
    first: Seq<char>,
    rest: Seq<char>,
    path: String,
)
    requires
        call_ensures(
            process_one,
            (base_url, rec, download_missing, Event::Taken),
            Step::LookFor(path),
        ),
    ensures
        !rec.src_file_name@.contains('/') ==> path@ == rec.src_file_name@,
        rec.src_file_name@ == first + seq!['/'] + rest && !first.contains('/') ==> path@ == (if {
            ||| first.len() == 7 && forall|i: int|
                0 <= i < 7 ==> #[trigger] first[i] == "windows"@[i] || first[i] == "WINDOWS"@[i]
            ||| first.len() == 5 && forall|i: int|
                0 <= i < 5 ==> #[trigger] first[i] == "macos"@[i] || first[i] == "MACOS"@[i]
            ||| first.len() == 5 && forall|i: int|
                0 <= i < 5 ==> #[trigger] first[i] == "steam"@[i] || first[i] == "STEAM"@[i]
        } {
            rest
        } else {
            rec.src_file_name@
        }),
{
    let name = rec.src_file_name@;
    assert(Step::LookFor(path)@ == StepView::LookFor(path@));
    utils::law_other_paths_are_kept(name);
    utils::lemma_platform_names(first);
    if name == first + seq!['/'] + rest && !first.contains('/') {
        utils::lemma_local_path(first, rest);
    }
}

/// A file is fetched from the base URL, a `/` and the record's whole name.
pub proof fn law_file_is_fetched_under_its_whole_name(
    base_url: &str,
    rec: &FileRecord,
    download_missing: bool,
    event: Event,
    url: String,
)
    requires
        call_ensures(process_one, (base_url, rec, download_missing, event), Step::Fetch(url)),
    ensures
        url@.len() == base_url@.len() + 1 + rec.src_file_name@.len(),
        url@.take(base_url@.len() as int) == base_url@,
        url@[base_url@.len() as int] == '/',
        url@.skip(base_url@.len() as int + 1) == rec.src_file_name@,
{
    reveal_strlit("/");
    assert(Step::Fetch(url)@ == StepView::Fetch(url@));
    let n = base_url@.len() as int;
    assert(url@.take(n) =~= base_url@);
    assert(url@.skip(n + 1) =~= rec.src_file_name@);
}

/// Records with different names are fetched from different URLs.
pub proof fn law_different_files_have_different_urls(
    base_url: &str,
    a: &FileRecord,
    a_wanted: bool,
    a_event: Event,
    a_url: String,
    b: &FileRecord,
    b_wanted: bool,
    b_event: Event,
    b_url: String,
)
    requires
        call_ensures(process_one, (base_url, a, a_wanted, a_event), Step::Fetch(a_url)),
        call_ensures(process_one, (base_url, b, b_wanted, b_event), Step::Fetch(b_url)),
        a.src_file_name@ != b.src_file_name@,
    ensures
        a_url@ != b_url@,
{
    law_file_is_fetched_under_its_whole_name(base_url, a, a_wanted, a_event, a_url);
    law_file_is_fetched_under_its_whole_name(base_url, b, b_wanted, b_event, b_url);
}

/// A file is fetched exactly where it is missing and missing files are wanted, where it could not
/// be read, and where its checksum is not the record's, whatever the record's name.
pub proof fn law_missing_or_stale_file_is_fetched(
    base_url: &str,
    rec: &FileRecord,
    download_missing: bool,
    event: Event,
    step: Step,
)
    requires
        call_ensures(process_one, (base_url, rec, download_missing, event), step),
    ensures
        step is Fetch <==> match event {
            Event::Exists(exists) => !exists && download_missing,
            Event::LocalCrc(None) => true,
            Event::LocalCrc(Some(local_crc)) => local_crc as int != rec.crc as int,
            _ => false,
        },
        step is ReadCrc <==> (event matches Event::Exists(exists) && exists),
{
}

/// A record's end is told as it is: up to date where the checksums are the same, missing where the
/// file is and is not wanted, and otherwise as the download ended.
pub proof fn law_end_is_told_as_it_is(
    base_url: &str,
    rec: &FileRecord,
    download_missing: bool,
    event: Event,
    outcome: Outcome,
)
    requires
        call_ensures(
            process_one,
            (base_url, rec, download_missing, event),
            Step::Finished(outcome),
        ),
    ensures
        match outcome {
            Outcome::Downloaded(bytes) => event matches Event::Download(Ok(written)) && written
                == bytes,
            Outcome::Failed(error) => event matches Event::Download(Err(reason)) && reason@
                == error@,
            Outcome::UpToDate => event matches Event::LocalCrc(Some(local_crc)) && local_crc as int
                == rec.crc as int,
            Outcome::SkippedMissing => !download_missing && (event matches Event::Exists(exists)
                && !exists),
            Outcome::SkippedPatchClient => event is Taken,
        },
{
    assert(Step::Finished(outcome)@ == StepView::Finished(outcome@));
}

/// Whether missing files are wanted changes what is done about a missing file and nothing else.
pub proof fn law_wanting_missing_files_changes_nothing_else(
    base_url: &str,
    rec: &FileRecord,
    event: Event,
    with: Step,
    without: Step,
)
    requires
        call_ensures(process_one, (base_url, rec, true, event), with),
        call_ensures(process_one, (base_url, rec, false, event), without),
        !(event matches Event::Exists(exists) && !exists),
    ensures
        match (with, without) {
            (Step::LookFor(x), Step::LookFor(y)) => x@ == y@,
            (Step::Fetch(x), Step::Fetch(y)) => x@ == y@,
            (Step::ReadCrc, Step::ReadCrc) => true,
            (Step::Finished(x), Step::Finished(y)) => x@ == y@,
            _ => false,
        },
{
    assert(with@ == without@);
}

/// Equal views of records and of options are equal fields.
pub proof fn law_views_tell_fields(rec: FileRecord, options: PatchOptions)
    ensures
        rec@.src_file_name == rec.src_file_name@,
        rec@.crc == rec.crc,
        options@.game == options.game,
        options@.platform == options.platform,
        options@.country == options.country,
        options@.revision == (match options.revision {
            Some(revision) => Some(revision@),
            None => None,
        }),
        options@.download_missing == options.download_missing,
        options@.game_path == options.game_path@,
        options@.jobs == options.jobs,
{
}

/// Without a wanted revision the server's URLs are kept as they are. With one, a file list's URL
/// that has no revision is an error that names that URL.
pub proof fn law_urls_without_a_revision(
    live: PatchUrls,
    revision: &Option<String>,
    r: Result<PatchUrls, WizPatchError>,
)
    requires
        call_ensures(resolve_urls, (live, revision), r),
    ensures
        *revision is None ==> (r matches Ok(urls) && urls.file_list_url@ == live.file_list_url@
            && urls.base_url@ == live.base_url@),
        *revision is Some && (forall|j: int|
            0 <= j <= live.file_list_url@.len() - 11 ==> #[trigger] live.file_list_url@.subrange(
                j,
                j + 11,
            ) != "WizPatcher/"@) ==> (r matches Err(WizPatchError::NoRevision(url)) && url@
            == live.file_list_url@),
{
    if *revision is Some && (forall|j: int|
        0 <= j <= live.file_list_url@.len() - 11 ==> #[trigger] live.file_list_url@.subrange(
            j,
            j + 11,
        ) != "WizPatcher/"@) {
        lemma_no_revision(live.file_list_url@);
    }
}

/// A text without the marker names no revision.
proof fn lemma_no_revision(url: Seq<char>)
    requires
        forall|j: int|
            0 <= j <= url.len() - 11 ==> #[trigger] url.subrange(j, j + 11) != "WizPatcher/"@,
    ensures
        utils::revision_of(url) is None,
{
    let m = "WizPatcher/"@;
    utils::lemma_marker_letters();
    assert forall|j: int| 0 <= j <= url.len() - m.len() implies #[trigger] url.subrange(
        j,
        j + m.len(),
    ) != m by {
        assert(url.subrange(j, j + 11) != m);
    }
    text::lemma_no_place(url, m);
}

/// A text with the marker names the segment behind the first.
proof fn lemma_revision_behind_marker(
    url: Seq<char>,
    before: Seq<char>,
    revision: Seq<char>,
    rest: Seq<char>,
)
    requires
        url == before + "WizPatcher/"@ + revision + rest,
        forall|j: int|
            0 <= j < before.len() ==> #[trigger] url.subrange(j, j + 11) != "WizPatcher/"@,
        !revision.contains('/'),
        rest.len() > 0 ==> rest[0] == '/',
    ensures
        utils::revision_of(url) == Some(revision),
{
    let m = "WizPatcher/"@;
    utils::lemma_marker_letters();
    let i = before.len() as int;
    assert(url.subrange(i, i + m.len()) =~= m);
    assert forall|j: int| 0 <= j < i implies #[trigger] url.subrange(j, j + m.len()) != m by {
        assert(url.subrange(j, j + 11) != m);
    }
    text::lemma_first_place(url, m, i);
    assert(url.skip(i + m.len()) =~= revision + rest);
    text::lemma_segment_of_joined(revision, rest);
}

/// With a wanted revision, both URLs are those of the server with the wanted revision in each place
/// of the one that the file list's URL names behind its first `WizPatcher/`.
pub proof fn law_wanted_revision_replaces_the_current_one(
    live: PatchUrls,
    revision: &Option<String>,
    before: Seq<char>,
    rest: Seq<char>,
    file_list_url: &str,
    base_url: &str,
    current: &str,
    wanted: &str,
    new_file_list_url: String,
    new_base_url: String,
    r: Result<PatchUrls, WizPatchError>,
)
    requires
        call_ensures(resolve_urls, (live, revision), r),
        *revision matches Some(text) && text@ == wanted@,
        live.file_list_url@ == file_list_url@,
        live.base_url@ == base_url@,
        file_list_url@ == before + "WizPatcher/"@ + current@ + rest,
        forall|j: int|
            0 <= j < before.len() ==> #[trigger] file_list_url@.subrange(j, j + 11)
                != "WizPatcher/"@,
        !current@.contains('/'),
        rest.len() > 0 ==> rest[0] == '/',
        call_ensures(text::replace, (file_list_url, current, wanted), new_file_list_url),
        call_ensures(text::replace, (base_url, current, wanted), new_base_url),
    ensures
        r matches Ok(urls) && urls.file_list_url@ == new_file_list_url@ && urls.base_url@
            == new_base_url@,
{
    lemma_revision_behind_marker(file_list_url@, before, current@, rest);
}

/// A text that holds the pattern once is what stands before it, the replacement, and what stands
/// behind it.
proof fn lemma_replaced_once(before: Seq<char>, from: Seq<char>, after: Seq<char>, to: Seq<char>)
    requires
        from.len() > 0,
        forall|j: int|
            0 <= j <= before.len() + after.len() && j != before.len() ==> #[trigger] (before + from
                + after).subrange(j, j + from.len()) != from,
    ensures
        text::replaced(before + from + after, from, to) == before + to + after,
{
    let s = before + from + after;
    text::lemma_replaced_first(before, after, from, to);
    assert forall|j: int| 0 <= j <= after.len() - from.len() implies #[trigger] after.subrange(
        j,
        j + from.len(),
    ) != from by {
        let k = before.len() + from.len() + j;
        assert(after.subrange(j, j + from.len()) =~= s.subrange(k, k + from.len()));
    }
    text::lemma_no_place(after, from);
    text::lemma_replaced_nothing(after, from, to);
}

/// Where the server's revision stands once in each URL, in the file list's behind its first
/// `WizPatcher/`, the wanted revision stands in its place, and everything else is kept.
pub proof fn law_wanted_revision_stands_where_the_current_one_did(
    live: PatchUrls,
    revision: &Option<String>,
    before: Seq<char>,
    current: Seq<char>,
    rest: Seq<char>,
    base_before: Seq<char>,
    base_rest: Seq<char>,
    wanted: Seq<char>,
    r: Result<PatchUrls, WizPatchError>,
)
    requires
        call_ensures(resolve_urls, (live, revision), r),
        *revision matches Some(text) && text@ == wanted,
        current.len() > 0,
        !current.contains('/'),
        rest.len() > 0 ==> rest[0] == '/',
        live.file_list_url@ == before + "WizPatcher/"@ + current + rest,
        forall|j: int|
            0 <= j < before.len() ==> #[trigger] live.file_list_url@.subrange(j, j + 11)
                != "WizPatcher/"@,
        forall|j: int|
            0 <= j <= live.file_list_url@.len() - current.len() && j != before.len() + 11
                ==> #[trigger] live.file_list_url@.subrange(j, j + current.len()) != current,
        live.base_url@ == base_before + current + base_rest,
        forall|j: int|
            0 <= j <= live.base_url@.len() - current.len() && j != base_before.len()
                ==> #[trigger] live.base_url@.subrange(j, j + current.len()) != current,
    ensures
        r matches Ok(urls) && urls.file_list_url@ == before + "WizPatcher/"@ + wanted + rest
            && urls.base_url@ == base_before + wanted + base_rest,
{
    utils::lemma_marker_letters();
    lemma_revision_behind_marker(live.file_list_url@, before, current, rest);
    lemma_replaced_once(before + "WizPatcher/"@, current, rest, wanted);
    lemma_replaced_once(base_before, current, base_rest, wanted);
}

/// A plan's URLs are those that the wanted revision leads to, and its revision is the one that the
/// file list's URL then names. Where either cannot be had, that error is the plan's.
pub proof fn law_plan_names_what_its_urls_name(
    live: PatchUrls,
    revision: &Option<String>,
    urls: Result<PatchUrls, WizPatchError>,
    file_list_url: &str,
    named: Result<String, WizPatchError>,
    plan: Result<PatchPlan, WizPatchError>,
)
    requires
        call_ensures(plan_patch, (live, revision), plan),
        call_ensures(resolve_urls, (live, revision), urls),
        urls matches Ok(found) ==> found.file_list_url@ == file_list_url@,
        call_ensures(revision_from_url, (file_list_url,), named),
    ensures
        match (urls, named, plan) {
            (Err(error), _, Err(told)) => told@ == error@,
            (Ok(_), Err(error), Err(told)) => told@ == error@,
            (Ok(urls), Ok(named), Ok(plan)) => {
                &&& plan.urls.file_list_url@ == urls.file_list_url@
                &&& plan.urls.base_url@ == urls.base_url@
                &&& plan.revision@ == named@
            },
            _ => false,
        },
{
}

/// Two records may wait for each worker.
pub proof fn law_two_records_wait_for_each_worker(jobs: usize, capacity: usize)
    requires
        call_ensures(queue_capacity, (jobs,), capacity),
    ensures
        capacity - jobs == jobs,
{
}

/// A clone of options has the same options.
pub proof fn law_clone_keeps_options(options: &PatchOptions, clone: PatchOptions)
    requires
        call_ensures(PatchOptions::clone, (options,), clone),
    ensures
        clone.game == options.game,
        clone.platform == options.platform,
        clone.country == options.country,
        match (clone.revision, options.revision) {
            (Some(x), Some(y)) => x@ == y@,
            (None, None) => true,
            _ => false,
        },
        clone.download_missing == options.download_missing,
        clone.game_path@ == options.game_path@,
        clone.jobs == options.jobs,
{
    assert(clone@.revision == options@.revision);
}

} // verus!
