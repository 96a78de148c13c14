//! The tally of what became of the records, and how it is reported.

use crate::patcher;
use crate::patcher::Outcome;
use crate::text;
use crate::text::{align_right, decimal_text};
use vstd::prelude::*;
use vstd::string::*;

verus! {

/// How many records there were and what became of them.
#[derive(Debug, Clone, Copy)]
pub struct PatchStats {
    pub total: usize,
    pub downloaded: usize,
    pub skipped_missing: usize,
    pub up_to_date: usize,
    pub failed: usize,
}

impl Default for PatchStats {
    fn default() -> (r: Self)
        ensures
            r == (PatchStats {
                total: 0,
                downloaded: 0,
                skipped_missing: 0,
                up_to_date: 0,
                failed: 0,
            }),
    {
        PatchStats { total: 0, downloaded: 0, skipped_missing: 0, up_to_date: 0, failed: 0 }
    }
}

/// The kinds of outcome.
pub ghost enum OutcomeKind {
    Downloaded,
    UpToDate,
    SkippedMissing,
    SkippedPatchClient,
    Failed,
}

/// The kind of an outcome.
pub open spec fn kind_of(outcome: patcher::OutcomeView) -> OutcomeKind {
    match outcome {
        patcher::OutcomeView::Downloaded(_) => OutcomeKind::Downloaded,
        patcher::OutcomeView::UpToDate => OutcomeKind::UpToDate,
        patcher::OutcomeView::SkippedMissing => OutcomeKind::SkippedMissing,
        patcher::OutcomeView::SkippedPatchClient => OutcomeKind::SkippedPatchClient,
        patcher::OutcomeView::Failed(_) => OutcomeKind::Failed,
    }
}

/// How many of the outcomes are of this kind.
pub open spec fn count_of(outcomes: Seq<OutcomeKind>, kind: OutcomeKind) -> nat {
    outcomes.to_multiset().count(kind)
}

/// `stats` counts these outcomes of `total` records. What belongs to the patch client is counted
/// in the total alone.
pub open spec fn counts(stats: PatchStats, total: nat, outcomes: Seq<OutcomeKind>) -> bool {
    &&& stats.total == total
    &&& stats.downloaded == count_of(outcomes, OutcomeKind::Downloaded)
    &&& stats.up_to_date == count_of(outcomes, OutcomeKind::UpToDate)
    &&& stats.skipped_missing == count_of(outcomes, OutcomeKind::SkippedMissing)
    &&& stats.failed == count_of(outcomes, OutcomeKind::Failed)
}

/// The running count of what became of the records of one list.
pub struct Tally {
    stats: PatchStats,
    done: usize,
    outcomes: Ghost<Seq<OutcomeKind>>,
}

impl View for Tally {
    type V = Seq<OutcomeKind>;

    /// The outcomes that were recorded, in order.
    closed spec fn view(&self) -> Seq<OutcomeKind> {
        self.outcomes@
    }
}

impl Tally {
    #[verifier::type_invariant]
    spec fn counts_outcomes(&self) -> bool {
        &&& counts(self.stats, self.stats.total as nat, self.outcomes@)
        &&& self.done == self.outcomes@.len()
        &&& self.done <= self.stats.total
    }

    /// The number of records in the list.
    pub closed spec fn total(&self) -> nat {
        self.stats.total as nat
    }

    /// A tally of `total` records, none of them done.
    pub fn new(total: usize) -> (r: Self)
        ensures
            r@ == Seq::<OutcomeKind>::empty(),
            r.total() == total,
    {
        proof {
            lemma_counts_add_up(Seq::empty());
        }
        Tally {
            stats: PatchStats { total, downloaded: 0, skipped_missing: 0, up_to_date: 0, failed: 0 },
            done: 0,
            outcomes: Ghost(Seq::empty()),
        }
    }

    /// How many records are not done yet.
    pub fn remaining(&self) -> (r: usize)
        ensures
            r == self.total() - self@.len(),
    {
        proof {
            use_type_invariant(&*self);
        }
        self.stats.total - self.done
    }

    /// Counts the outcome of one more record and gives the number of records that are done.
    pub fn record(&mut self, outcome: &Outcome) -> (n: usize)
        requires
            old(self)@.len() < old(self).total(),
        ensures
            final(self)@ == old(self)@.push(kind_of(outcome@)),
            final(self).total() == old(self).total(),
            n == final(self)@.len(),
    {
        proof {
            use_type_invariant(&*self);
            lemma_counts_add_up(self.outcomes@);
            lemma_count_push(self.outcomes@, kind_of(outcome@));
        }
        let mut stats: PatchStats = self.stats;
        match outcome {
            Outcome::Downloaded(_) => {
                stats.downloaded += 1;
            },
            Outcome::UpToDate => {
                stats.up_to_date += 1;
            },
            Outcome::SkippedMissing => {
                stats.skipped_missing += 1;
            },
            Outcome::SkippedPatchClient => {},
            Outcome::Failed(_) => {
                stats.failed += 1;
            },
        }
        let done: usize = self.done + 1;
        *self = Tally { stats, done, outcomes: Ghost(self.outcomes@.push(kind_of(outcome@))) };
        done
    }

    /// The counts so far.
    pub fn stats(&self) -> (r: PatchStats)
        ensures
            counts(r, self.total(), self@),
    {
        proof {
            use_type_invariant(&*self);
        }
        self.stats
    }
}

/// One more outcome raises the count of its kind by one and no other.
pub proof fn lemma_count_push(outcomes: Seq<OutcomeKind>, kind: OutcomeKind)
    ensures
        forall|k: OutcomeKind| #[trigger]
            count_of(outcomes.push(kind), k) == count_of(outcomes, k) + (if k == kind {
                1nat
            } else {
                0nat
            }),
{
    broadcast use vstd::seq_lib::group_to_multiset_ensures;

}

/// Every outcome is of one kind, so the counts of all kinds add up to the number of outcomes.
pub proof fn lemma_counts_add_up(outcomes: Seq<OutcomeKind>)
    ensures
        count_of(outcomes, OutcomeKind::Downloaded) + count_of(outcomes, OutcomeKind::UpToDate)
            + count_of(outcomes, OutcomeKind::SkippedMissing) + count_of(
            outcomes,
            OutcomeKind::SkippedPatchClient,
        ) + count_of(outcomes, OutcomeKind::Failed) == outcomes.len(),
    decreases outcomes.len(),
{
    if outcomes.len() == 0 {
        broadcast use vstd::seq_lib::group_to_multiset_ensures;

        assert(outcomes =~= Seq::empty());
    } else {
        lemma_counts_add_up(outcomes.drop_last());
        lemma_count_push(outcomes.drop_last(), outcomes.last());
        assert(outcomes =~= outcomes.drop_last().push(outcomes.last()));
    }
}

/// The counts add up: each record that is done is counted once, or belongs to the patch client.
pub proof fn law_stats_add_up(stats: PatchStats, total: nat, outcomes: Seq<OutcomeKind>)
    requires
        counts(stats, total, outcomes),
    ensures
        stats.downloaded + stats.up_to_date + stats.skipped_missing + stats.failed + count_of(
            outcomes,
            OutcomeKind::SkippedPatchClient,
        ) == outcomes.len(),
{
    lemma_counts_add_up(outcomes);
}

/// The order in which workers finish does not show in the counts.
pub proof fn law_order_does_not_matter(
    stats: PatchStats,
    total: nat,
    outcomes: Seq<OutcomeKind>,
    reordered: Seq<OutcomeKind>,
)
    requires
        outcomes.to_multiset() == reordered.to_multiset(),
    ensures
        counts(stats, total, outcomes) <==> counts(stats, total, reordered),
{
}

/// How far the work has come: `[n/total] `, each number in a field of five characters.
pub open spec fn progress_head(n: nat, total: nat) -> Seq<char> {
    "["@ + text::aligned_right(text::decimal(n), 5) + "/"@ + text::aligned_right(
        text::decimal(total),
        5,
    ) + "] "@
}

/// What is said about a record that is done.
#[derive(Debug)]
pub enum Report {
    /// Nothing.
    Quiet,
    /// A line about a file that was fetched.
    Progress(String),
    /// A line about a file that could not be fetched.
    Failure(String),
}

/// The content of a [`Report`].
pub ghost enum ReportView {
    Quiet,
    Progress(Seq<char>),
    Failure(Seq<char>),
}

impl View for Report {
    type V = ReportView;

    open spec fn view(&self) -> ReportView {
        match self {
            Report::Quiet => ReportView::Quiet,
            Report::Progress(line) => ReportView::Progress(line@),
            Report::Failure(line) => ReportView::Failure(line@),
        }
    }
}

/// The report on the `n`-th record that is done, where `reason` says why it failed, if it did.
pub open spec fn reported(
    n: nat,
    total: nat,
    name: Seq<char>,
    outcome: patcher::OutcomeView,
    reason: Seq<char>,
) -> ReportView {
    match outcome {
        patcher::OutcomeView::Downloaded(bytes) => ReportView::Progress(
            progress_head(n, total) + name + " ("@ + text::decimal(bytes as nat) + " bytes)"@,
        ),
        patcher::OutcomeView::Failed(_) => ReportView::Failure(
            progress_head(n, total) + name + " FAILED: "@ + reason,
        ),
        _ => ReportView::Quiet,
    }
}

/// Renders [`progress_head`].
fn progress_text(n: usize, total: usize) -> (r: String)
    ensures
        r@ == progress_head(n as nat, total as nat),
{
    let mut r: String = "[".to_owned();
    r.append(align_right(decimal_text(n as u64).as_str(), 5).as_str());
    r.append("/");
    r.append(align_right(decimal_text(total as u64).as_str(), 5).as_str());
    r.append("] ");
    r
}

/// The report on the `n`-th record that is done. `reason` says why it failed, and is not used
/// for one that did not.
pub fn report(n: usize, total: usize, name: &str, outcome: &Outcome, reason: &str) -> (r: Report)
    ensures
        r@ == reported(n as nat, total as nat, name@, outcome@, reason@),
{
    match outcome {
        Outcome::Downloaded(bytes) => {
            let mut line: String = progress_text(n, total);
            line.append(name);
            line.append(" (");
            line.append(decimal_text(*bytes).as_str());
            line.append(" bytes)");
            Report::Progress(line)
        },
        Outcome::Failed(_) => {
            let mut line: String = progress_text(n, total);
            line.append(name);
            line.append(" FAILED: ");
            line.append(reason);
            Report::Failure(line)
        },
        Outcome::UpToDate => Report::Quiet,
        Outcome::SkippedMissing => Report::Quiet,
        Outcome::SkippedPatchClient => Report::Quiet,
    }
}

/// The last line of a run.
pub open spec fn summarized(stats: PatchStats) -> Seq<char> {
    "\nDone. "@ + text::decimal(stats.downloaded as nat) + " downloaded, "@ + text::decimal(
        stats.up_to_date as nat,
    ) + " up-to-date, "@ + text::decimal(stats.skipped_missing as nat) + " skipped (missing), "@
        + text::decimal(stats.failed as nat) + " failed (of "@ + text::decimal(stats.total as nat)
        + " records)."@
}

/// Renders the last line of a run.
pub fn summary(stats: &PatchStats) -> (r: String)
    ensures
        r@ == summarized(*stats),
{
    let mut r: String = "\nDone. ".to_owned();
    r.append(decimal_text(stats.downloaded as u64).as_str());
    r.append(" downloaded, ");
    r.append(decimal_text(stats.up_to_date as u64).as_str());
    r.append(" up-to-date, ");
    r.append(decimal_text(stats.skipped_missing as u64).as_str());
    r.append(" skipped (missing), ");
    r.append(decimal_text(stats.failed as u64).as_str());
    r.append(" failed (of ");
    r.append(decimal_text(stats.total as u64).as_str());
    r.append(" records).");
    r
}

/// A new tally has counted nothing, and all its records remain.
pub proof fn law_new_tally_is_empty(
    total: usize,
    tally: Tally,
    stats: PatchStats,
    remaining: usize,
)
    requires
        call_ensures(Tally::new, (total,), tally),
        call_ensures(Tally::stats, (&tally,), stats),
        call_ensures(Tally::remaining, (&tally,), remaining),
    ensures
        stats.total == total,
        stats.downloaded == 0,
        stats.up_to_date == 0,
        stats.skipped_missing == 0,
        stats.failed == 0,
        remaining == total,
{
    lemma_counts_add_up(Seq::empty());
}

/// An outcome raises the count that is its own by one and no other, what belongs to the patch
/// client none, and one record less remains. The number that is given back is that of the records
/// that are done.
pub proof fn law_outcome_is_counted_once(
    tally: &mut Tally,
    outcome: &Outcome,
    n: usize,
    before: PatchStats,
    after: PatchStats,
    remaining_before: usize,
    remaining_after: usize,
)
    requires
        call_ensures(Tally::stats, (&*old(tally),), before),
        call_ensures(Tally::remaining, (&*old(tally),), remaining_before),
        call_ensures(Tally::record, (tally, outcome), n),
        call_ensures(Tally::stats, (&*final(tally),), after),
        call_ensures(Tally::remaining, (&*final(tally),), remaining_after),
    ensures
        after.total == before.total,
        after.downloaded == before.downloaded + (if outcome is Downloaded {
            1int
        } else {
            0int
        }),
        after.up_to_date == before.up_to_date + (if outcome is UpToDate {
            1int
        } else {
            0int
        }),
        after.skipped_missing == before.skipped_missing + (if outcome is SkippedMissing {
            1int
        } else {
            0int
        }),
        after.failed == before.failed + (if outcome is Failed {
            1int
        } else {
            0int
        }),
        remaining_after == remaining_before - 1,
        n == after.total - remaining_after,
{
    lemma_count_push(old(tally)@, kind_of(outcome@));
}

/// A file that was fetched is reported in a line that counts the records in fields of five places,
/// and ends with the record's whole name and the number of bytes. A failure is reported in a line
/// that ends with the whole name and the whole reason. Nothing is said of any other record.
pub proof fn law_report_tells_name_and_end(
    n: usize,
    total: usize,
    name: &str,
    outcome: &Outcome,
    reason: &str,
    r: Report,
    count: &str,
    count_field: String,
    of: &str,
    of_field: String,
)
    requires
        call_ensures(report, (n, total, name, outcome, reason), r),
        count@ == text::decimal(n as nat),
        call_ensures(align_right, (count, 5), count_field),
        of@ == text::decimal(total as nat),
        call_ensures(align_right, (of, 5), of_field),
    ensures
        match outcome {
            Outcome::Downloaded(bytes) => r matches Report::Progress(line) && line@ == seq!['[']
                + count_field@ + seq!['/'] + of_field@ + seq![']', ' '] + name@ + seq![' ', '(']
                + text::decimal(*bytes as nat) + " bytes)"@,
            Outcome::Failed(_) => r matches Report::Failure(line) && line@ == seq!['[']
                + count_field@ + seq!['/'] + of_field@ + seq![']', ' '] + name@ + " FAILED: "@
                + reason@,
            _ => r is Quiet,
        },
{
    reveal_strlit("[");
    reveal_strlit("/");
    reveal_strlit("] ");
    reveal_strlit(" (");
    assert("["@ =~= seq!['[']);
    assert("/"@ =~= seq!['/']);
    assert("] "@ =~= seq![']', ' ']);
    assert(" ("@ =~= seq![' ', '(']);
    assert(r@ == reported(n as nat, total as nat, name@, outcome@, reason@));
}

/// The last line of a run names each count with the word for it.
pub proof fn law_summary_names_each_count(stats: &PatchStats, line: String)
    requires
        call_ensures(summary, (stats,), line),
    ensures
        line@ == "\nDone. "@ + text::decimal(stats.downloaded as nat) + " downloaded, "@
            + text::decimal(stats.up_to_date as nat) + " up-to-date, "@ + text::decimal(
            stats.skipped_missing as nat,
        ) + " skipped (missing), "@ + text::decimal(stats.failed as nat) + " failed (of "@
            + text::decimal(stats.total as nat) + " records)."@,
{
}

/// The last line of a run tells all five counts: two runs have the same line only where every count
/// is the same.
pub proof fn law_summary_tells_all_counts(
    a: &PatchStats,
    a_line: String,
    b: &PatchStats,
    b_line: String,
)
    requires
        call_ensures(summary, (a,), a_line),
        call_ensures(summary, (b,), b_line),
        a_line@ == b_line@,
    ensures
        *a == *b,
{
    let x = counts_and_words(*a);
    let y = counts_and_words(*b);
    lemma_summary_in_parts(*a);
    lemma_summary_in_parts(*b);
    lemma_words_start_with_a_space();
    lemma_behind_equal_starts("\nDone. "@, x[0], y[0]);
    lemma_count_and_word(a.downloaded as nat, b.downloaded as nat, " downloaded, "@, x[1], y[1]);
    lemma_count_and_word(a.up_to_date as nat, b.up_to_date as nat, " up-to-date, "@, x[2], y[2]);
    lemma_count_and_word(
        a.skipped_missing as nat,
        b.skipped_missing as nat,
        " skipped (missing), "@,
        x[3],
        y[3],
    );
    lemma_count_and_word(a.failed as nat, b.failed as nat, " failed (of "@, x[4], y[4]);
    text::lemma_number_ends_where_digits_end(
        a.total as nat,
        " records)."@,
        b.total as nat,
        " records)."@,
    );
}

/// The last line of a run from each of its counts on.
spec fn counts_and_words(s: PatchStats) -> Seq<Seq<char>> {
    let total = text::decimal(s.total as nat) + " records)."@;
    let failed = text::decimal(s.failed as nat) + (" failed (of "@ + total);
    let skipped = text::decimal(s.skipped_missing as nat) + (" skipped (missing), "@ + failed);
    let up_to_date = text::decimal(s.up_to_date as nat) + (" up-to-date, "@ + skipped);
    let downloaded = text::decimal(s.downloaded as nat) + (" downloaded, "@ + up_to_date);
    seq![downloaded, up_to_date, skipped, failed, total]
}

/// The last line of a run is its first word and what follows from the first count on.
proof fn lemma_summary_in_parts(s: PatchStats)
    ensures
        summarized(s) == "\nDone. "@ + counts_and_words(s)[0],
{
    let d = text::decimal(s.downloaded as nat);
    let u = text::decimal(s.up_to_date as nat);
    let m = text::decimal(s.skipped_missing as nat);
    let f = text::decimal(s.failed as nat);
    let x = counts_and_words(s);
    let head = "\nDone. "@;
    assert(head + x[0] =~= head + d + " downloaded, "@ + x[1]);
    assert(head + d + " downloaded, "@ + x[1] =~= head + d + " downloaded, "@ + u + " up-to-date, "@
        + x[2]);
    let y = head + d + " downloaded, "@ + u + " up-to-date, "@;
    assert(y + x[2] =~= y + m + " skipped (missing), "@ + x[3]);
    let z = y + m + " skipped (missing), "@;
    assert(z + x[3] =~= z + f + " failed (of "@ + x[4]);
    let w = z + f + " failed (of "@;
    assert(w + x[4] =~= w + text::decimal(s.total as nat) + " records)."@);
}

/// The words behind the counts start with a space.
proof fn lemma_words_start_with_a_space()
    ensures
        " downloaded, "@.len() > 0 && " downloaded, "@[0] == ' ',
        " up-to-date, "@.len() > 0 && " up-to-date, "@[0] == ' ',
        " skipped (missing), "@.len() > 0 && " skipped (missing), "@[0] == ' ',
        " failed (of "@.len() > 0 && " failed (of "@[0] == ' ',
        " records)."@.len() > 0 && " records)."@[0] == ' ',
{
    reveal_strlit(" downloaded, ");
    reveal_strlit(" up-to-date, ");
    reveal_strlit(" skipped (missing), ");
    reveal_strlit(" failed (of ");
    reveal_strlit(" records).");
}

/// Behind equal starts equal texts are equal.
proof fn lemma_behind_equal_starts(start: Seq<char>, x: Seq<char>, y: Seq<char>)
    requires
        start + x == start + y,
    ensures
        x == y,
{
    assert(x =~= (start + x).skip(start.len() as int));
    assert(y =~= (start + y).skip(start.len() as int));
}

/// Two equal texts that start with a count and the same word have the same count and go on equally.
proof fn lemma_count_and_word(a: nat, b: nat, word: Seq<char>, x: Seq<char>, y: Seq<char>)
    requires
        word.len() > 0,
        word[0] == ' ',
        text::decimal(a) + (word + x) == text::decimal(b) + (word + y),
    ensures
        a == b,
        x == y,
{
    text::lemma_number_ends_where_digits_end(a, word + x, b, word + y);
    lemma_behind_equal_starts(word, x, y);
}

} // verus!
