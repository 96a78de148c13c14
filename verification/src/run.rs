//! Runs over a whole file list: what they count and what they leave on disk, however the work on
//! the records is interleaved.

use crate::checksum;
use crate::errors;
use crate::patcher;
use crate::tally;
use crate::tally::{PatchStats, Tally};
use crate::utils;
use vstd::prelude::*;

verus! {

/// The kinds of outcome of a list of records, each in its own world, in the list's order.
pub open spec fn outcomes_in(
    records: Seq<patcher::FileRecordView>,
    worlds: Seq<patcher::World>,
    download_missing: bool,
) -> Seq<tally::OutcomeKind> {
    Seq::new(
        records.len(),
        |i: int|
            tally::kind_of(
                patcher::record_outcome(
                    records[i].src_file_name,
                    records[i].crc,
                    download_missing,
                    worlds[i],
                ),
            ),
    )
}

/// Two runs in which the records meet the same worlds give the same counts, in whatever order
/// their records finish.
pub proof fn law_counts_come_from_worlds(
    records: Seq<patcher::FileRecordView>,
    worlds: Seq<patcher::World>,
    download_missing: bool,
    a: Tally,
    a_stats: PatchStats,
    b: Tally,
    b_stats: PatchStats,
)
    requires
        worlds.len() == records.len(),
        a.total() == records.len(),
        b.total() == records.len(),
        a@.to_multiset() == outcomes_in(records, worlds, download_missing).to_multiset(),
        b@.to_multiset() == outcomes_in(records, worlds, download_missing).to_multiset(),
        tally::counts(a_stats, a.total(), a@),
        tally::counts(b_stats, b.total(), b@),
    ensures
        a_stats == b_stats,
{
}

/// Where a kind stands at the same places of two lists, it is counted equally often.
proof fn lemma_same_places_same_count(
    a: Seq<tally::OutcomeKind>,
    b: Seq<tally::OutcomeKind>,
    kind: tally::OutcomeKind,
)
    requires
        a.len() == b.len(),
        forall|i: int| 0 <= i < a.len() ==> (#[trigger] a[i] == kind <==> b[i] == kind),
    ensures
        tally::count_of(a, kind) == tally::count_of(b, kind),
    decreases a.len(),
{
    if a.len() == 0 {
        assert(a =~= b);
    } else {
        let x = a.drop_last();
        let y = b.drop_last();
        assert forall|i: int| 0 <= i < x.len() implies (#[trigger] x[i] == kind <==> y[i] == kind) by {
            assert(a[i] == kind <==> b[i] == kind);
        }
        lemma_same_places_same_count(x, y, kind);
        tally::lemma_count_push(x, a.last());
        tally::lemma_count_push(y, b.last());
        assert(a =~= x.push(a.last()));
        assert(b =~= y.push(b.last()));
        assert(a[a.len() - 1] == kind <==> b[a.len() - 1] == kind);
    }
}

/// A kind that stands nowhere in a list is not counted.
proof fn lemma_absent_kind_counts_zero(a: Seq<tally::OutcomeKind>, kind: tally::OutcomeKind)
    requires
        forall|i: int| 0 <= i < a.len() ==> #[trigger] a[i] != kind,
    ensures
        tally::count_of(a, kind) == 0,
    decreases a.len(),
{
    tally::lemma_counts_add_up(a);
    if a.len() > 0 {
        let x = a.drop_last();
        assert forall|i: int| 0 <= i < x.len() implies #[trigger] x[i] != kind by {
            assert(a[i] != kind);
        }
        lemma_absent_kind_counts_zero(x, kind);
        tally::lemma_count_push(x, a.last());
        assert(a =~= x.push(a.last()));
        assert(a[a.len() - 1] != kind);
    }
}

/// A record's local file has the record's checksum, or the record belongs to the patch client.
pub open spec fn in_place(record: patcher::FileRecordView, world: patcher::World) -> bool {
    patcher::is_patch_client(record.src_file_name) || (world.exists && world.local_crc is Some
        && world.local_crc->0 == record.crc)
}

/// A run after which no record had failed, with missing files wanted, followed by a run that finds
/// every file in place: the second counts as up to date what the first had fetched or had found
/// up to date, and nothing else.
pub proof fn law_second_run_finds_all_up_to_date(
    records: Seq<patcher::FileRecordView>,
    first: Seq<patcher::World>,
    second: Seq<patcher::World>,
    a: PatchStats,
    b: PatchStats,
)
    requires
        first.len() == records.len(),
        second.len() == records.len(),
        tally::counts(a, records.len(), outcomes_in(records, first, true)),
        tally::counts(b, records.len(), outcomes_in(records, second, true)),
        a.failed == 0,
        forall|i: int| 0 <= i < records.len() ==> in_place(#[trigger] records[i], second[i]),
    ensures
        b.total == a.total,
        b.downloaded == 0,
        b.failed == 0,
        b.skipped_missing == 0,
        b.up_to_date == a.downloaded + a.up_to_date,
{
    let x = outcomes_in(records, first, true);
    let y = outcomes_in(records, second, true);
    assert forall|i: int| 0 <= i < y.len() implies {
        ||| #[trigger] y[i] == tally::OutcomeKind::UpToDate
        ||| y[i] == tally::OutcomeKind::SkippedPatchClient
    } by {
        assert(in_place(records[i], second[i]));
    }
    lemma_same_places_same_count(x, y, tally::OutcomeKind::SkippedPatchClient);
    lemma_absent_kind_counts_zero(x, tally::OutcomeKind::SkippedMissing);
    lemma_absent_kind_counts_zero(y, tally::OutcomeKind::SkippedMissing);
    lemma_absent_kind_counts_zero(y, tally::OutcomeKind::Downloaded);
    lemma_absent_kind_counts_zero(y, tally::OutcomeKind::Failed);
    tally::lemma_counts_add_up(x);
    tally::lemma_counts_add_up(y);
}

/// How a download ends.
pub ghost enum Answer {
    /// The whole file came.
    Whole(Seq<u8>),
    /// An error came: before the local file was created, or with these bytes written to it.
    Broken(Option<Seq<u8>>, errors::ErrorView),
}

impl Answer {
    /// What the download reports.
    pub open spec fn result(self) -> Result<u64, errors::ErrorView> {
        match self {
            Answer::Whole(bytes) => Ok(bytes.len() as u64),
            Answer::Broken(_, error) => Err(error),
        }
    }

    /// The local file after the download.
    pub open spec fn written_over(self, file: Option<Seq<u8>>) -> Option<Seq<u8>> {
        match self {
            Answer::Whole(bytes) => Some(bytes),
            Answer::Broken(Some(bytes), _) => Some(bytes),
            Answer::Broken(None, _) => file,
        }
    }
}

/// A list of records to work on, a server whose answer depends on the URL alone, and the paths
/// whose file can be read, which stay the same.
pub ghost struct Job {
    pub base_url: Seq<char>,
    pub records: Seq<patcher::FileRecordView>,
    pub download_missing: bool,
    pub server: spec_fn(Seq<char>) -> Answer,
    pub readable: spec_fn(Seq<char>) -> bool,
}

/// How far the work on a record has come.
pub ghost enum Progress {
    /// This was learned last.
    Waiting(patcher::EventView),
    /// The work is done.
    Done(patcher::OutcomeView),
}

/// The work on one record and its local file.
pub ghost struct RecordState {
    pub progress: Progress,
    pub file: Option<Seq<u8>>,
}

impl Job {
    /// The path of a record's local file below the game directory: the one that the first step says
    /// to look for, or the record's name where that step looks for nothing.
    pub open spec fn path(self, i: int) -> Seq<char> {
        match patcher::next_step(
            self.base_url,
            self.records[i].src_file_name,
            self.records[i].crc,
            self.download_missing,
            patcher::EventView::Taken,
        ) {
            patcher::StepView::LookFor(path) => path,
            _ => self.records[i].src_file_name,
        }
    }

    /// No two records have the same local file.
    pub open spec fn paths_differ(self) -> bool {
        forall|i: int, j: int|
            0 <= i < self.records.len() && 0 <= j < self.records.len() && i != j ==> #[trigger]
            self.path(i) != #[trigger] self.path(j)
    }

    /// What the server answers for a record.
    pub open spec fn served(self, i: int) -> Answer {
        (self.server)(patcher::file_url(self.base_url, self.records[i].src_file_name))
    }

    /// What a record meets, given its local file.
    pub open spec fn world(self, i: int, file: Option<Seq<u8>>) -> patcher::World {
        patcher::World {
            exists: file is Some,
            local_crc: match file {
                Some(bytes) => if (self.readable)(self.path(i)) {
                    Some(checksum::crc32(bytes))
                } else {
                    None
                },
                None => None,
            },
            download: self.served(i).result(),
        }
    }

    /// One step of the work on a record, as [`patcher::next_step`] asks for it. A download writes
    /// the local file; nothing else does.
    pub open spec fn advanced(self, i: int, s: RecordState) -> RecordState {
        match s.progress {
            Progress::Done(_) => s,
            Progress::Waiting(event) => match patcher::next_step(
                self.base_url,
                self.records[i].src_file_name,
                self.records[i].crc,
                self.download_missing,
                event,
            ) {
                patcher::StepView::Finished(outcome) => RecordState {
                    progress: Progress::Done(outcome),
                    ..s
                },
                patcher::StepView::Fetch(url) => RecordState {
                    progress: Progress::Waiting(
                        patcher::EventView::Download((self.server)(url).result()),
                    ),
                    file: (self.server)(url).written_over(s.file),
                },
                step => RecordState {
                    progress: Progress::Waiting(patcher::answered(self.world(i, s.file), step)),
                    ..s
                },
            },
        }
    }

    /// So many steps of the work on a record.
    pub open spec fn advanced_by(self, i: int, s: RecordState, n: nat) -> RecordState
        decreases n,
    {
        if n == 0 {
            s
        } else {
            self.advanced(i, self.advanced_by(i, s, (n - 1) as nat))
        }
    }

    /// A record that was just taken, with its local file.
    pub open spec fn taken(self, file: Option<Seq<u8>>) -> RecordState {
        RecordState { progress: Progress::Waiting(patcher::EventView::Taken), file }
    }

    /// A record whose work is done, with what became of it and of its local file.
    pub open spec fn done(self, i: int, file: Option<Seq<u8>>) -> RecordState {
        let outcome = patcher::record_outcome(
            self.records[i].src_file_name,
            self.records[i].crc,
            self.download_missing,
            self.world(i, file),
        );
        RecordState {
            progress: Progress::Done(outcome),
            file: if outcome is Downloaded || outcome is Failed {
                self.served(i).written_over(file)
            } else {
                file
            },
        }
    }
}

/// The state of a run: the files in the game directory and the progress of each record.
pub ghost struct RunState {
    pub files: Map<Seq<char>, Seq<u8>>,
    pub progress: Seq<Progress>,
}

/// The file at a path, if there is one.
pub open spec fn file_at(files: Map<Seq<char>, Seq<u8>>, path: Seq<char>) -> Option<Seq<u8>> {
    if files.contains_key(path) {
        Some(files[path])
    } else {
        None
    }
}

/// A run of which nothing is done.
pub open spec fn started(job: Job, files: Map<Seq<char>, Seq<u8>>) -> RunState {
    RunState {
        files,
        progress: Seq::new(
            job.records.len(),
            |i: int| Progress::Waiting(patcher::EventView::Taken),
        ),
    }
}

/// The part of a run's state that belongs to one record.
pub open spec fn part_of(job: Job, state: RunState, i: int) -> RecordState {
    RecordState { progress: state.progress[i], file: file_at(state.files, job.path(i)) }
}

/// A run after one step of the work on the record `i`.
pub open spec fn stepped(job: Job, state: RunState, i: int) -> RunState {
    let next = job.advanced(i, part_of(job, state, i));
    RunState {
        files: match next.file {
            Some(bytes) => state.files.insert(job.path(i), bytes),
            None => state.files,
        },
        progress: state.progress.update(i, next.progress),
    }
}

/// A run in which the steps are taken by the records that `schedule` names, in its order. Any
/// number of workers gives some schedule.
pub open spec fn run_by(
    job: Job,
    files: Map<Seq<char>, Seq<u8>>,
    schedule: Seq<int>,
) -> RunState
    decreases schedule.len(),
{
    if schedule.len() == 0 {
        started(job, files)
    } else {
        stepped(job, run_by(job, files, schedule.drop_last()), schedule.last())
    }
}

/// A schedule names records of the list alone, and its run is done with every one of them.
pub open spec fn completes(
    job: Job,
    files: Map<Seq<char>, Seq<u8>>,
    schedule: Seq<int>,
) -> bool {
    &&& forall|k: int| 0 <= k < schedule.len() ==> 0 <= #[trigger] schedule[k] < job.records.len()
    &&& forall|i: int|
        0 <= i < job.records.len() ==> #[trigger] run_by(job, files, schedule).progress[i] is Done
}

/// The outcomes of a run that is done with every record, in the list's order.
pub open spec fn outcomes_of(state: RunState) -> Seq<tally::OutcomeKind> {
    Seq::new(state.progress.len(), |i: int| tally::kind_of(state.progress[i]->Done_0))
}

/// The worlds that the records meet in a directory.
pub open spec fn worlds_in(job: Job, files: Map<Seq<char>, Seq<u8>>) -> Seq<patcher::World> {
    Seq::new(job.records.len(), |i: int| job.world(i, file_at(files, job.path(i))))
}

/// How often a record is named in a schedule.
spec fn turns(schedule: Seq<int>, i: int) -> nat
    decreases schedule.len(),
{
    if schedule.len() == 0 {
        0
    } else {
        turns(schedule.drop_last(), i) + (if schedule.last() == i {
            1nat
        } else {
            0nat
        })
    }
}

/// Four steps do the work on a record, and fewer leave it undone or do it.
proof fn lemma_record_work(job: Job, i: int, file: Option<Seq<u8>>, n: nat)
    requires
        0 <= i < job.records.len(),
    ensures
        job.advanced_by(i, job.taken(file), n).progress is Done || n >= 4 ==> job.advanced_by(
            i,
            job.taken(file),
            n,
        ) == job.done(i, file),
    decreases n,
{
    reveal_with_fuel(Job::advanced_by, 5);
    if n > 4 {
        lemma_record_work(job, i, file, (n - 1) as nat);
    }
}

/// What a run makes of a record and of its file is what the work on that record alone makes of
/// them; no other file is touched.
proof fn lemma_records_are_apart(job: Job, files: Map<Seq<char>, Seq<u8>>, schedule: Seq<int>)
    requires
        job.paths_differ(),
        forall|k: int|
            0 <= k < schedule.len() ==> 0 <= #[trigger] schedule[k] < job.records.len(),
    ensures
        run_by(job, files, schedule).progress.len() == job.records.len(),
        forall|i: int|
            0 <= i < job.records.len() ==> #[trigger] part_of(job, run_by(job, files, schedule), i)
                == job.advanced_by(
                i,
                job.taken(file_at(files, job.path(i))),
                turns(schedule, i),
            ),
        forall|path: Seq<char>|
            (forall|i: int| 0 <= i < job.records.len() ==> #[trigger] job.path(i) != path)
                ==> #[trigger] file_at(run_by(job, files, schedule).files, path) == file_at(
                files,
                path,
            ),
    decreases schedule.len(),
{
    if schedule.len() > 0 {
        let before = schedule.drop_last();
        let j = schedule.last();
        assert(schedule[schedule.len() - 1] == j);
        assert forall|k: int| 0 <= k < before.len() implies 0 <= #[trigger] before[k]
            < job.records.len() by {
            assert(before[k] == schedule[k]);
        }
        lemma_records_are_apart(job, files, before);
        let old_state = run_by(job, files, before);
        let state = run_by(job, files, schedule);
        assert(state == stepped(job, old_state, j));
        assert forall|i: int| 0 <= i < job.records.len() implies #[trigger] part_of(job, state, i)
            == job.advanced_by(
            i,
            job.taken(file_at(files, job.path(i))),
            turns(schedule, i),
        ) by {
            let own = part_of(job, old_state, i);
            if i == j {
                lemma_file_is_kept(job, j, own);
                assert(part_of(job, state, i) == job.advanced(i, own));
            } else {
                assert(job.path(i) != job.path(j));
                assert(part_of(job, state, i) == own);
            }
        }
        assert forall|path: Seq<char>|
            (forall|i: int| 0 <= i < job.records.len() ==> #[trigger] job.path(i)
                != path) implies #[trigger] file_at(state.files, path) == file_at(files, path) by {
            assert(job.path(j) != path);
            assert(file_at(old_state.files, path) == file_at(files, path));
        }
    } else {
        assert forall|i: int| 0 <= i < job.records.len() implies #[trigger] part_of(
            job,
            started(job, files),
            i,
        ) == job.taken(file_at(files, job.path(i))) by {}
    }
}

/// No step takes a file away.
proof fn lemma_file_is_kept(job: Job, i: int, s: RecordState)
    ensures
        s.file is Some ==> job.advanced(i, s).file is Some,
{
}

/// Where a run is done with every record, each record and its file are as the record's work alone
/// leaves them.
pub proof fn law_each_record_is_on_its_own(job: Job, files: Map<Seq<char>, Seq<u8>>, schedule: Seq<int>)
    requires
        job.paths_differ(),
        completes(job, files, schedule),
    ensures
        run_by(job, files, schedule).progress.len() == job.records.len(),
        forall|i: int|
            0 <= i < job.records.len() ==> #[trigger] part_of(job, run_by(job, files, schedule), i)
                == job.done(i, file_at(files, job.path(i))),
        outcomes_of(run_by(job, files, schedule)) == outcomes_in(
            job.records,
            worlds_in(job, files),
            job.download_missing,
        ),
{
    lemma_records_are_apart(job, files, schedule);
    let state = run_by(job, files, schedule);
    assert forall|i: int| 0 <= i < job.records.len() implies #[trigger] part_of(job, state, i)
        == job.done(i, file_at(files, job.path(i))) by {
        assert(state.progress[i] is Done);
        lemma_record_work(job, i, file_at(files, job.path(i)), turns(schedule, i));
    }
    assert forall|i: int| 0 <= i < job.records.len() implies #[trigger] outcomes_of(state)[i]
        == outcomes_in(job.records, worlds_in(job, files), job.download_missing)[i] by {
        assert(part_of(job, state, i) == job.done(i, file_at(files, job.path(i))));
    }
    assert(outcomes_of(state) =~= outcomes_in(
        job.records,
        worlds_in(job, files),
        job.download_missing,
    ));
}

/// The number of workers changes speed only: however the steps on the records are interleaved,
/// runs that are done with every record leave the same files and the same outcomes, and tallies
/// that recorded those outcomes, each in an order of its own, give the same counts. No two
/// records have the same local file.
pub proof fn law_interleaving_does_not_matter(
    job: Job,
    files: Map<Seq<char>, Seq<u8>>,
    a_schedule: Seq<int>,
    a: Tally,
    a_stats: PatchStats,
    b_schedule: Seq<int>,
    b: Tally,
    b_stats: PatchStats,
)
    requires
        job.paths_differ(),
        completes(job, files, a_schedule),
        completes(job, files, b_schedule),
        a.total() == job.records.len(),
        b.total() == job.records.len(),
        a@.to_multiset() == outcomes_of(run_by(job, files, a_schedule)).to_multiset(),
        b@.to_multiset() == outcomes_of(run_by(job, files, b_schedule)).to_multiset(),
        tally::counts(a_stats, a.total(), a@),
        tally::counts(b_stats, b.total(), b@),
    ensures
        run_by(job, files, a_schedule) == run_by(job, files, b_schedule),
        a_stats == b_stats,
{
    law_each_record_is_on_its_own(job, files, a_schedule);
    law_each_record_is_on_its_own(job, files, b_schedule);
    lemma_records_are_apart(job, files, a_schedule);
    lemma_records_are_apart(job, files, b_schedule);
    let x = run_by(job, files, a_schedule);
    let y = run_by(job, files, b_schedule);
    assert forall|path: Seq<char>| #[trigger] file_at(x.files, path) == file_at(y.files, path) by {
        if exists|i: int| 0 <= i < job.records.len() && job.path(i) == path {
            let i = choose|i: int| 0 <= i < job.records.len() && job.path(i) == path;
            assert(part_of(job, x, i) == part_of(job, y, i));
        }
    }
    lemma_same_files(x.files, y.files);
    assert forall|i: int| 0 <= i < job.records.len() implies #[trigger] x.progress[i]
        == y.progress[i] by {
        assert(part_of(job, x, i) == part_of(job, y, i));
    }
    assert(x.progress =~= y.progress);
    law_counts_come_from_worlds(
        job.records,
        worlds_in(job, files),
        job.download_missing,
        a,
        a_stats,
        b,
        b_stats,
    );
}

/// Directories with the same file at every path are the same.
proof fn lemma_same_files(x: Map<Seq<char>, Seq<u8>>, y: Map<Seq<char>, Seq<u8>>)
    requires
        forall|path: Seq<char>| #[trigger] file_at(x, path) == file_at(y, path),
    ensures
        x == y,
{
    assert forall|path: Seq<char>| #[trigger] x.contains_key(path) == y.contains_key(path) by {
        assert(file_at(x, path) == file_at(y, path));
    }
    assert forall|path: Seq<char>| x.contains_key(path) implies #[trigger] x[path] == y[path] by {
        assert(file_at(x, path) == file_at(y, path));
    }
    assert(x =~= y);
}

/// Every schedule in which each record has four turns completes.
pub proof fn law_four_turns_complete(
    job: Job,
    files: Map<Seq<char>, Seq<u8>>,
    schedule: Seq<int>,
)
    requires
        job.paths_differ(),
        forall|k: int|
            0 <= k < schedule.len() ==> 0 <= #[trigger] schedule[k] < job.records.len(),
        forall|i: int|
            0 <= i < job.records.len() ==> #[trigger] schedule.to_multiset().count(i) >= 4,
    ensures
        completes(job, files, schedule),
{
    lemma_records_are_apart(job, files, schedule);
    assert forall|i: int| 0 <= i < job.records.len() implies #[trigger] run_by(
        job,
        files,
        schedule,
    ).progress[i] is Done by {
        lemma_turns_are_counted(schedule, i);
        assert(schedule.to_multiset().count(i) >= 4);
        lemma_record_work(job, i, file_at(files, job.path(i)), turns(schedule, i));
        assert(part_of(job, run_by(job, files, schedule), i) == job.done(
            i,
            file_at(files, job.path(i)),
        ));
    }
}

/// The turns of a record are its places in the schedule.
proof fn lemma_turns_are_counted(schedule: Seq<int>, i: int)
    ensures
        turns(schedule, i) == schedule.to_multiset().count(i),
    decreases schedule.len(),
{
    broadcast use vstd::seq_lib::group_to_multiset_ensures;

    if schedule.len() == 0 {
        assert(schedule =~= Seq::empty());
    } else {
        lemma_turns_are_counted(schedule.drop_last(), i);
        assert(schedule =~= schedule.drop_last().push(schedule.last()));
    }
}

/// A second run over the same list changes nothing: after a run with missing files wanted in which
/// no record failed, where every file that the server gives has its record's checksum and the
/// records' files can be read, a run over the same list and from the same server finds each file up
/// to date that the first fetched or found so, fetches nothing, and leaves every file as it is.
pub proof fn law_second_run_changes_nothing(
    job: Job,
    files: Map<Seq<char>, Seq<u8>>,
    a_schedule: Seq<int>,
    a: Tally,
    a_stats: PatchStats,
    b_schedule: Seq<int>,
    b: Tally,
    b_stats: PatchStats,
)
    requires
        job.paths_differ(),
        job.download_missing,
        forall|i: int|
            0 <= i < job.records.len() && !patcher::is_patch_client(
                job.records[i].src_file_name,
            ) ==> (job.readable)(#[trigger] job.path(i)),
        forall|i: int|
            0 <= i < job.records.len() ==> match #[trigger] job.served(i) {
                Answer::Whole(bytes) => checksum::crc32(bytes) == job.records[i].crc,
                Answer::Broken(..) => true,
            },
        completes(job, files, a_schedule),
        completes(job, run_by(job, files, a_schedule).files, b_schedule),
        a.total() == job.records.len(),
        b.total() == job.records.len(),
        a@.to_multiset() == outcomes_of(run_by(job, files, a_schedule)).to_multiset(),
        b@.to_multiset() == outcomes_of(
            run_by(job, run_by(job, files, a_schedule).files, b_schedule),
        ).to_multiset(),
        tally::counts(a_stats, a.total(), a@),
        tally::counts(b_stats, b.total(), b@),
        a_stats.failed == 0,
    ensures
        run_by(job, run_by(job, files, a_schedule).files, b_schedule).files == run_by(
            job,
            files,
            a_schedule,
        ).files,
        b_stats.total == a_stats.total,
        b_stats.downloaded == 0,
        b_stats.failed == 0,
        b_stats.skipped_missing == 0,
        b_stats.up_to_date == a_stats.downloaded + a_stats.up_to_date,
{
    let x = run_by(job, files, a_schedule);
    let y = run_by(job, x.files, b_schedule);
    law_each_record_is_on_its_own(job, files, a_schedule);
    law_each_record_is_on_its_own(job, x.files, b_schedule);
    lemma_records_are_apart(job, x.files, b_schedule);
    let first = worlds_in(job, files);
    let second = worlds_in(job, x.files);
    assert forall|i: int| 0 <= i < job.records.len() implies in_place(
        #[trigger] job.records[i],
        second[i],
    ) by {
        assert(part_of(job, x, i) == job.done(i, file_at(files, job.path(i))));
        assert(patcher::is_patch_client(job.records[i].src_file_name) || (job.readable)(
            job.path(i),
        ));
        assert(match job.served(i) {
            Answer::Whole(bytes) => checksum::crc32(bytes) == job.records[i].crc,
            Answer::Broken(..) => true,
        });
        lemma_uncounted_kind_is_absent(outcomes_of(x), tally::OutcomeKind::Failed, i);
    }
    law_second_run_finds_all_up_to_date(job.records, first, second, a_stats, b_stats);
    assert forall|path: Seq<char>| #[trigger] file_at(y.files, path) == file_at(x.files, path) by {
        if exists|i: int| 0 <= i < job.records.len() && job.path(i) == path {
            let i = choose|i: int| 0 <= i < job.records.len() && job.path(i) == path;
            assert(in_place(job.records[i], second[i]));
            assert(part_of(job, y, i) == job.done(i, file_at(x.files, path)));
        }
    }
    lemma_same_files(y.files, x.files);
}

/// A kind that is not counted stands nowhere in the list.
proof fn lemma_uncounted_kind_is_absent(
    a: Seq<tally::OutcomeKind>,
    kind: tally::OutcomeKind,
    i: int,
)
    requires
        tally::count_of(a, kind) == 0,
        0 <= i < a.len(),
    ensures
        a[i] != kind,
{
    broadcast use vstd::seq_lib::group_to_multiset_ensures;

    assert(a.contains(a[i]));
}

/// A local file that cannot be read is fetched, like one with another checksum.
pub proof fn law_unreadable_file_is_fetched(
    job: Job,
    files: Map<Seq<char>, Seq<u8>>,
    schedule: Seq<int>,
    i: int,
)
    requires
        job.paths_differ(),
        completes(job, files, schedule),
        0 <= i < job.records.len(),
        !patcher::is_patch_client(job.records[i].src_file_name),
        files.contains_key(job.path(i)),
        !(job.readable)(job.path(i)),
    ensures
        run_by(job, files, schedule).progress[i] == Progress::Done(
            match job.served(i).result() {
                Ok(bytes) => patcher::OutcomeView::Downloaded(bytes),
                Err(error) => patcher::OutcomeView::Failed(error),
            },
        ),
        file_at(run_by(job, files, schedule).files, job.path(i)) == job.served(i).written_over(
            Some(files[job.path(i)]),
        ),
{
    law_each_record_is_on_its_own(job, files, schedule);
    let part = part_of(job, run_by(job, files, schedule), i);
    assert(part == job.done(i, file_at(files, job.path(i))));
}

/// What may differ between two states of the game directory: no file goes away, a path that belongs
/// to no record outside the patch client keeps its file, and where missing files are not wanted, no
/// file comes in addition.
pub open spec fn only_record_files_change(
    job: Job,
    before: Map<Seq<char>, Seq<u8>>,
    after: Map<Seq<char>, Seq<u8>>,
) -> bool {
    &&& forall|path: Seq<char>| #[trigger]
        before.contains_key(path) ==> after.contains_key(path)
    &&& forall|path: Seq<char>|
        (forall|i: int|
            0 <= i < job.records.len() && !patcher::is_patch_client(job.records[i].src_file_name)
                ==> #[trigger] job.path(i) != path) ==> #[trigger] file_at(after, path) == file_at(
            before,
            path,
        )
    &&& !job.download_missing ==> forall|path: Seq<char>| #[trigger]
        after.contains_key(path) ==> before.contains_key(path)
}

/// A record in the middle of its work is none of the patch client's, and where missing files are
/// not wanted, it has a local file unless none was found.
spec fn works_on_its_file(job: Job, state: RunState, i: int) -> bool {
    match state.progress[i] {
        Progress::Waiting(patcher::EventView::Taken) => true,
        Progress::Waiting(patcher::EventView::Exists(false)) => !patcher::is_patch_client(
            job.records[i].src_file_name,
        ),
        Progress::Waiting(event) => !patcher::is_patch_client(job.records[i].src_file_name) && (
        job.download_missing || state.files.contains_key(job.path(i))),
        Progress::Done(_) => true,
    }
}

/// A run, finished or not and whatever the records' paths, changes files of records alone, and where
/// missing files are not wanted, it only updates files that are already present.
pub proof fn law_run_changes_files_of_records_alone(
    job: Job,
    files: Map<Seq<char>, Seq<u8>>,
    schedule: Seq<int>,
)
    requires
        forall|k: int|
            0 <= k < schedule.len() ==> 0 <= #[trigger] schedule[k] < job.records.len(),
    ensures
        only_record_files_change(job, files, run_by(job, files, schedule).files),
{
    lemma_run_changes_files_of_records_alone(job, files, schedule);
}

/// [`law_run_changes_files_of_records_alone`], with what each record's progress says of its file.
proof fn lemma_run_changes_files_of_records_alone(
    job: Job,
    files: Map<Seq<char>, Seq<u8>>,
    schedule: Seq<int>,
)
    requires
        forall|k: int|
            0 <= k < schedule.len() ==> 0 <= #[trigger] schedule[k] < job.records.len(),
    ensures
        run_by(job, files, schedule).progress.len() == job.records.len(),
        forall|i: int|
            0 <= i < job.records.len() ==> #[trigger] works_on_its_file(
                job,
                run_by(job, files, schedule),
                i,
            ),
        only_record_files_change(job, files, run_by(job, files, schedule).files),
    decreases schedule.len(),
{
    if schedule.len() > 0 {
        let before = schedule.drop_last();
        let j = schedule.last();
        assert(schedule[schedule.len() - 1] == j);
        assert forall|k: int| 0 <= k < before.len() implies 0 <= #[trigger] before[k]
            < job.records.len() by {
            assert(before[k] == schedule[k]);
        }
        lemma_run_changes_files_of_records_alone(job, files, before);
        let old_state = run_by(job, files, before);
        let state = run_by(job, files, schedule);
        let own = part_of(job, old_state, j);
        let next = job.advanced(j, own);
        assert(state == stepped(job, old_state, j));
        assert(works_on_its_file(job, old_state, j));
        assert(next.file != own.file ==> !patcher::is_patch_client(job.records[j].src_file_name));
        assert(next.file is Some && own.file is None ==> job.download_missing);
        assert forall|i: int| 0 <= i < job.records.len() implies #[trigger] works_on_its_file(
            job,
            state,
            i,
        ) by {
            assert(works_on_its_file(job, old_state, i));
        }
        assert forall|path: Seq<char>|
            (forall|i: int|
                0 <= i < job.records.len() && !patcher::is_patch_client(
                    job.records[i].src_file_name,
                ) ==> #[trigger] job.path(i) != path) implies #[trigger] file_at(state.files, path)
            == file_at(files, path) by {
            assert(file_at(old_state.files, path) == file_at(files, path));
            if job.path(j) == path {
                assert(next.file == own.file);
            }
        }
    }
}

/// A run that is done with every record has put what the server gives under the base URL, a `/`
/// and the record's name in the place of a local file with another checksum, whether missing files
/// are wanted or not. The local file lies under the record's name without a leading `windows/`,
/// `macos/` or `steam/`, in any mix of capital and small letters.
pub proof fn law_stale_file_is_replaced(
    job: Job,
    files: Map<Seq<char>, Seq<u8>>,
    schedule: Seq<int>,
    i: int,
    first: Seq<char>,
    rest: Seq<char>,
    path: Seq<char>,
    bytes: Seq<u8>,
)
    requires
        job.paths_differ(),
        completes(job, files, schedule),
        0 <= i < job.records.len(),
        job.records[i].src_file_name == first + seq!['/'] + rest,
        !first.contains('/'),
        !(first.len() == 11 && forall|k: int|
            0 <= k < 11 ==> #[trigger] first[k] == "patchclient"@[k] || first[k]
                == "PATCHCLIENT"@[k]),
        path == (if {
            ||| first.len() == 7 && forall|k: int|
                0 <= k < 7 ==> #[trigger] first[k] == "windows"@[k] || first[k] == "WINDOWS"@[k]
            ||| first.len() == 5 && forall|k: int|
                0 <= k < 5 ==> #[trigger] first[k] == "macos"@[k] || first[k] == "MACOS"@[k]
            ||| first.len() == 5 && forall|k: int|
                0 <= k < 5 ==> #[trigger] first[k] == "steam"@[k] || first[k] == "STEAM"@[k]
        } {
            rest
        } else {
            first + seq!['/'] + rest
        }),
        files.contains_key(path),
        checksum::crc32(files[path]) != job.records[i].crc,
        (job.server)(job.base_url + seq!['/'] + job.records[i].src_file_name) == Answer::Whole(
            bytes,
        ),
    ensures
        run_by(job, files, schedule).files.contains_key(path),
        run_by(job, files, schedule).files[path] == bytes,
        run_by(job, files, schedule).progress[i] == Progress::Done(
            patcher::OutcomeView::Downloaded(bytes.len() as u64),
        ),
{
    reveal_strlit("/");
    assert("/"@ =~= seq!['/']);
    let name = job.records[i].src_file_name;
    let behind = seq!['/'] + rest;
    assert(name =~= first + behind);
    patcher::lemma_patch_client(first, behind);
    utils::lemma_platform_names(first);
    utils::lemma_local_path(first, rest);
    assert(job.path(i) == path);
    law_each_record_is_on_its_own(job, files, schedule);
    assert(part_of(job, run_by(job, files, schedule), i) == job.done(i, file_at(files, path)));
}

} // verus!
