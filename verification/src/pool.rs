//! A pool of workers that take the records of a list one by one, and what does not depend on their
//! number.

use crate::patcher;
use crate::run;
use crate::tally;
use crate::tally::{PatchStats, Tally};
use vstd::prelude::*;

verus! {

/// The state of a pool: the run that it works on, how many records were taken off the queue, the
/// record that each worker is busy with, and the records whose outcomes were counted, in order.
pub ghost struct PoolState {
    pub run: run::RunState,
    pub taken: int,
    pub busy: Seq<Option<int>>,
    pub counted: Seq<int>,
}

/// A pool of `jobs` workers that have done nothing.
pub open spec fn opened(job: run::Job, files: Map<Seq<char>, Seq<u8>>, jobs: nat) -> PoolState {
    PoolState {
        run: run::started(job, files),
        taken: 0,
        busy: Seq::new(jobs, |w: int| None),
        counted: seq![],
    }
}

/// A pool after one turn of the worker `w`. Without a record it takes the next one off the queue,
/// if there is one; with one it does a step of the work on it, and where the work is done, it has
/// the outcome counted.
pub open spec fn turned(job: run::Job, pool: PoolState, w: int) -> PoolState {
    match pool.busy[w] {
        None => if pool.taken < job.records.len() {
            PoolState {
                taken: pool.taken + 1,
                busy: pool.busy.update(w, Some(pool.taken)),
                ..pool
            }
        } else {
            pool
        },
        Some(i) => if pool.run.progress[i] is Done {
            PoolState {
                busy: pool.busy.update(w, None),
                counted: pool.counted.push(i),
                ..pool
            }
        } else {
            PoolState { run: run::stepped(job, pool.run, i), ..pool }
        },
    }
}

/// A pool in which the workers that `turns` names have their turns in its order.
pub open spec fn pool_by(
    job: run::Job,
    files: Map<Seq<char>, Seq<u8>>,
    jobs: nat,
    turns: Seq<int>,
) -> PoolState
    decreases turns.len(),
{
    if turns.len() == 0 {
        opened(job, files, jobs)
    } else {
        turned(job, pool_by(job, files, jobs, turns.drop_last()), turns.last())
    }
}

/// Turns name workers of the pool alone.
pub open spec fn are_turns(jobs: nat, turns: Seq<int>) -> bool {
    forall|k: int| 0 <= k < turns.len() ==> 0 <= #[trigger] turns[k] < jobs
}

/// The queue is empty and no worker is busy.
pub open spec fn closed_down(job: run::Job, pool: PoolState) -> bool {
    &&& pool.taken == job.records.len()
    &&& forall|w: int| 0 <= w < pool.busy.len() ==> #[trigger] pool.busy[w] is None
}

/// The outcomes that were counted, in order.
pub open spec fn counted_outcomes(pool: PoolState) -> Seq<tally::OutcomeKind> {
    pool.counted.map_values(|i: int| tally::kind_of(pool.run.progress[i]->Done_0))
}

/// The records that the workers' turns do a step of the work on, in order.
spec fn steps_of(
    job: run::Job,
    files: Map<Seq<char>, Seq<u8>>,
    jobs: nat,
    turns: Seq<int>,
) -> Seq<int>
    decreases turns.len(),
{
    if turns.len() == 0 {
        seq![]
    } else {
        let pool = pool_by(job, files, jobs, turns.drop_last());
        let steps = steps_of(job, files, jobs, turns.drop_last());
        match pool.busy[turns.last()] {
            Some(i) => if pool.run.progress[i] is Done {
                steps
            } else {
                steps.push(i)
            },
            None => steps,
        }
    }
}

/// Every record that was taken is with one worker or counted, once, and counted records are done.
spec fn in_order(job: run::Job, pool: PoolState) -> bool {
    &&& 0 <= pool.taken <= job.records.len()
    &&& pool.run.progress.len() == job.records.len()
    &&& pool.counted.no_duplicates()
    &&& forall|w: int|
        0 <= w < pool.busy.len() ==> match #[trigger] pool.busy[w] {
            Some(i) => 0 <= i < pool.taken && !pool.counted.contains(i),
            None => true,
        }
    &&& forall|v: int, w: int|
        #![trigger pool.busy[v], pool.busy[w]]
        0 <= v < w < pool.busy.len() && pool.busy[v] is Some ==> pool.busy[v] != pool.busy[w]
    &&& forall|k: int|
        0 <= k < pool.counted.len() ==> {
            &&& 0 <= #[trigger] pool.counted[k] < pool.taken
            &&& pool.run.progress[pool.counted[k]] is Done
        }
    &&& forall|i: int|
        0 <= i < pool.taken ==> #[trigger] pool.counted.contains(i) || exists|w: int|
            0 <= w < pool.busy.len() && #[trigger] pool.busy[w] == Some(i)
}

/// A turn keeps a pool in order.
proof fn lemma_turn_keeps_order(job: run::Job, pool: PoolState, w: int)
    requires
        in_order(job, pool),
        0 <= w < pool.busy.len(),
    ensures
        in_order(job, turned(job, pool, w)),
{
    let next = turned(job, pool, w);
    match pool.busy[w] {
        None => {
            if pool.taken < job.records.len() {
                let i = pool.taken;
                assert(next.busy[w] == Some(i));
                assert forall|j: int| 0 <= j < next.taken implies #[trigger] next.counted.contains(j)
                    || exists|v: int| 0 <= v < next.busy.len() && #[trigger] next.busy[v] == Some(
                    j,
                ) by {
                    if j < i && !pool.counted.contains(j) {
                        let v = choose|v: int|
                            0 <= v < pool.busy.len() && #[trigger] pool.busy[v] == Some(j);
                        assert(next.busy[v] == Some(j));
                    }
                }
                assert(!pool.counted.contains(i)) by {
                    if pool.counted.contains(i) {
                        let k = choose|k: int|
                            0 <= k < pool.counted.len() && pool.counted[k] == i;
                        assert(pool.counted[k] < pool.taken);
                    }
                }
                assert forall|u: int, v: int|
                    #![trigger next.busy[u], next.busy[v]]
                    0 <= u < v < next.busy.len() && next.busy[u] is Some implies next.busy[u]
                    != next.busy[v] by {
                    assert(pool.busy[u] is Some ==> pool.busy[u]->0 < i);
                    assert(pool.busy[v] is Some ==> pool.busy[v]->0 < i);
                    if u != w && v != w {
                        assert(pool.busy[u] != pool.busy[v]);
                    }
                }
            }
        },
        Some(i) => {
            if pool.run.progress[i] is Done {
                let n = pool.counted.len() as int;
                assert(next.counted[n] == i);
                assert forall|j: int| pool.counted.contains(j) implies next.counted.contains(j) by {
                    let k = choose|k: int| 0 <= k < n && pool.counted[k] == j;
                    assert(next.counted[k] == j);
                }
                assert forall|j: int| 0 <= j < next.taken implies #[trigger] next.counted.contains(j)
                    || exists|v: int| 0 <= v < next.busy.len() && #[trigger] next.busy[v] == Some(
                    j,
                ) by {
                    if !pool.counted.contains(j) && j != i {
                        let v = choose|v: int|
                            0 <= v < pool.busy.len() && #[trigger] pool.busy[v] == Some(j);
                        assert(next.busy[v] == Some(j));
                    }
                }
                assert forall|v: int| 0 <= v < next.busy.len() implies match #[trigger] next.busy[v] {
                    Some(j) => 0 <= j < next.taken && !next.counted.contains(j),
                    None => true,
                } by {
                    if next.busy[v] is Some {
                        let j = next.busy[v]->0;
                        assert(v != w && pool.busy[v] == Some(j));
                        assert(j != i) by {
                            if v < w {
                                assert(pool.busy[v] != pool.busy[w]);
                            } else {
                                assert(pool.busy[w] != pool.busy[v]);
                            }
                        }
                        if next.counted.contains(j) {
                            let k = choose|k: int| 0 <= k <= n && next.counted[k] == j;
                            assert(pool.counted[k] == j);
                        }
                    }
                }
                assert forall|u: int, v: int|
                    #![trigger next.busy[u], next.busy[v]]
                    0 <= u < v < next.busy.len() && next.busy[u] is Some implies next.busy[u]
                    != next.busy[v] by {
                    assert(pool.busy[u] == next.busy[u]);
                    assert(pool.busy[v] == next.busy[v] || v == w);
                }
                assert forall|k: int| 0 <= k < next.counted.len() implies 0
                    <= #[trigger] next.counted[k] < next.taken && next.run.progress[next.counted[k]] is Done by {
                    if k < n {
                        assert(next.counted[k] == pool.counted[k]);
                    }
                }
                assert(next.counted.no_duplicates()) by {
                    assert forall|k: int| 0 <= k < n implies #[trigger] pool.counted[k] != i by {
                        assert(pool.counted.contains(pool.counted[k]));
                    }
                }
            } else {
                assert forall|k: int| 0 <= k < next.counted.len() implies 0
                    <= #[trigger] next.counted[k] < next.taken && next.run.progress[next.counted[k]] is Done by {
                    assert(pool.run.progress[pool.counted[k]] is Done);
                }
            }
        },
    }
}

/// A pool's run is that of a schedule over the list, and the pool is in order.
proof fn lemma_pool(job: run::Job, files: Map<Seq<char>, Seq<u8>>, jobs: nat, turns: Seq<int>)
    requires
        are_turns(jobs, turns),
    ensures
        pool_by(job, files, jobs, turns).busy.len() == jobs,
        in_order(job, pool_by(job, files, jobs, turns)),
        pool_by(job, files, jobs, turns).run == run::run_by(
            job,
            files,
            steps_of(job, files, jobs, turns),
        ),
        forall|k: int|
            0 <= k < steps_of(job, files, jobs, turns).len() ==> 0 <= #[trigger] steps_of(
                job,
                files,
                jobs,
                turns,
            )[k] < job.records.len(),
    decreases turns.len(),
{
    if turns.len() > 0 {
        let before = turns.drop_last();
        let w = turns.last();
        assert(turns[turns.len() - 1] == w);
        assert forall|k: int| 0 <= k < before.len() implies 0 <= #[trigger] before[k] < jobs by {
            assert(before[k] == turns[k]);
        }
        lemma_pool(job, files, jobs, before);
        let pool = pool_by(job, files, jobs, before);
        lemma_turn_keeps_order(job, pool, w);
        let steps = steps_of(job, files, jobs, before);
        if pool.busy[w] is Some {
            let i = pool.busy[w]->0;
            assert(steps.push(i).drop_last() =~= steps);
        }
    }
}

/// A list that names each number below `n` once is a reordering of those numbers, and so are the
/// values of a function on it.
proof fn lemma_reordered(list: Seq<int>, n: nat, f: spec_fn(int) -> tally::OutcomeKind)
    requires
        list.no_duplicates(),
        forall|k: int| 0 <= k < list.len() ==> 0 <= #[trigger] list[k] < n,
        forall|i: int| 0 <= i < n ==> list.contains(i),
    ensures
        list.map_values(f).to_multiset() == Seq::new(n, f).to_multiset(),
    decreases n,
{
    broadcast use vstd::seq_lib::group_to_multiset_ensures;

    if n == 0 {
        assert(list.len() == 0) by {
            if list.len() > 0 {
                assert(0 <= list[0] < n);
            }
        }
        assert(list.map_values(f) =~= Seq::new(n, f));
    } else {
        let last = n - 1;
        assert(list.contains(last));
        let k = choose|k: int| 0 <= k < list.len() && list[k] == last;
        let rest = list.remove(k);
        assert forall|j: int| 0 <= j < rest.len() implies 0 <= #[trigger] rest[j] < last by {
            assert(rest[j] == list[if j < k {
                j
            } else {
                j + 1
            }]);
        }
        assert forall|i: int| 0 <= i < last implies rest.contains(i) by {
            assert(list.contains(i));
            let j = choose|j: int| 0 <= j < list.len() && list[j] == i;
            assert(rest[if j < k {
                j
            } else {
                j - 1
            }] == i);
        }
        lemma_reordered(rest, last as nat, f);
        assert(rest.map_values(f) =~= list.map_values(f).remove(k));
        assert(Seq::new(n, f) =~= Seq::new(last as nat, f).push(f(last)));
        let all = list.map_values(f).to_multiset();
        assert(all.contains(f(last))) by {
            assert(list.map_values(f)[k] == f(last));
        }
        assert(all =~= all.remove(f(last)).insert(f(last)));
    }
}

/// A pool that closed down has done every record's work by some interleaving, and has counted each
/// record's outcome once.
pub proof fn law_pool_counts_each_record_once(
    job: run::Job,
    files: Map<Seq<char>, Seq<u8>>,
    jobs: nat,
    turns: Seq<int>,
) -> (schedule: Seq<int>)
    requires
        are_turns(jobs, turns),
        closed_down(job, pool_by(job, files, jobs, turns)),
    ensures
        run::completes(job, files, schedule),
        pool_by(job, files, jobs, turns).run == run::run_by(job, files, schedule),
        counted_outcomes(pool_by(job, files, jobs, turns)).to_multiset() == run::outcomes_of(
            pool_by(job, files, jobs, turns).run,
        ).to_multiset(),
{
    lemma_pool(job, files, jobs, turns);
    let pool = pool_by(job, files, jobs, turns);
    assert forall|i: int| 0 <= i < job.records.len() implies pool.counted.contains(i) by {
        if !pool.counted.contains(i) {
            let w = choose|w: int| 0 <= w < pool.busy.len() && #[trigger] pool.busy[w] == Some(i);
            assert(pool.busy[w] is None);
        }
    }
    assert forall|i: int| 0 <= i < job.records.len() implies #[trigger] pool.run.progress[i] is Done by {
        assert(pool.counted.contains(i));
        let k = choose|k: int| 0 <= k < pool.counted.len() && pool.counted[k] == i;
        assert(pool.run.progress[pool.counted[k]] is Done);
    }
    let f = |i: int| tally::kind_of(pool.run.progress[i]->Done_0);
    lemma_reordered(pool.counted, job.records.len(), f);
    assert(run::outcomes_of(pool.run) =~= Seq::new(job.records.len(), f));
    assert(counted_outcomes(pool) =~= pool.counted.map_values(f));
    steps_of(job, files, jobs, turns)
}

/// The number of workers changes speed only: pools of any numbers of workers, whose turns come in
/// any order, that closed down on the same list over the same directory leave the same files and
/// the same outcomes, and their tallies give the same counts. No two records have the same local
/// file.
pub proof fn law_number_of_workers_changes_speed_only(
    job: run::Job,
    files: Map<Seq<char>, Seq<u8>>,
    a_jobs: nat,
    a_turns: Seq<int>,
    a: Tally,
    a_stats: PatchStats,
    b_jobs: nat,
    b_turns: Seq<int>,
    b: Tally,
    b_stats: PatchStats,
)
    requires
        job.paths_differ(),
        are_turns(a_jobs, a_turns),
        are_turns(b_jobs, b_turns),
        closed_down(job, pool_by(job, files, a_jobs, a_turns)),
        closed_down(job, pool_by(job, files, b_jobs, b_turns)),
        a.total() == job.records.len(),
        b.total() == job.records.len(),
        a@ == counted_outcomes(pool_by(job, files, a_jobs, a_turns)),
        b@ == counted_outcomes(pool_by(job, files, b_jobs, b_turns)),
        tally::counts(a_stats, a.total(), a@),
        tally::counts(b_stats, b.total(), b@),
    ensures
        pool_by(job, files, a_jobs, a_turns).run == pool_by(job, files, b_jobs, b_turns).run,
        a_stats == b_stats,
{
    let a_schedule = law_pool_counts_each_record_once(job, files, a_jobs, a_turns);
    let b_schedule = law_pool_counts_each_record_once(job, files, b_jobs, b_turns);
    run::law_interleaving_does_not_matter(
        job,
        files,
        a_schedule,
        a,
        a_stats,
        b_schedule,
        b,
        b_stats,
    );
}

/// How many turns the worker of a record still has at most, the one in which the outcome is counted
/// not among them.
spec fn steps_left(progress: run::Progress) -> nat {
    match progress {
        run::Progress::Waiting(patcher::EventView::Taken) => 4,
        run::Progress::Waiting(patcher::EventView::Exists(_)) => 3,
        run::Progress::Waiting(patcher::EventView::LocalCrc(_)) => 2,
        run::Progress::Waiting(patcher::EventView::Download(_)) => 1,
        run::Progress::Done(_) => 0,
    }
}

/// How many turns are left for a worker that does everything that is left.
spec fn turns_left(job: run::Job, pool: PoolState) -> int {
    6 * (job.records.len() - pool.taken) + match pool.busy[0] {
        Some(i) => 1 + steps_left(pool.run.progress[i]),
        None => 0,
    }
}

/// A pool whose first worker alone has turns closes down.
proof fn lemma_first_worker_closes_down(
    job: run::Job,
    files: Map<Seq<char>, Seq<u8>>,
    jobs: nat,
    turns: Seq<int>,
) -> (all: Seq<int>)
    requires
        jobs >= 1,
        are_turns(jobs, turns),
        forall|w: int|
            0 < w < jobs ==> #[trigger] pool_by(job, files, jobs, turns).busy[w] is None,
        forall|i: int|
            pool_by(job, files, jobs, turns).taken <= i < job.records.len()
                ==> #[trigger] pool_by(job, files, jobs, turns).run.progress[i]
                == run::Progress::Waiting(patcher::EventView::Taken),
    ensures
        are_turns(jobs, all),
        closed_down(job, pool_by(job, files, jobs, all)),
    decreases turns_left(job, pool_by(job, files, jobs, turns)),
{
    lemma_pool(job, files, jobs, turns);
    let pool = pool_by(job, files, jobs, turns);
    if pool.taken == job.records.len() && pool.busy[0] is None {
        turns
    } else {
        let more = turns.push(0);
        assert(more.drop_last() =~= turns);
        let next = pool_by(job, files, jobs, more);
        assert(next == turned(job, pool, 0));
        assert(turns_left(job, next) < turns_left(job, pool));
        assert forall|w: int| 0 < w < jobs implies #[trigger] next.busy[w] is None by {
            assert(pool.busy[w] is None);
        }
        assert forall|i: int| next.taken <= i < job.records.len() implies #[trigger] next.run.progress[i]
            == run::Progress::Waiting(patcher::EventView::Taken) by {
            assert(pool.run.progress[i] == run::Progress::Waiting(patcher::EventView::Taken));
        }
        lemma_first_worker_closes_down(job, files, jobs, more)
    }
}

/// Every pool of at least one worker can close down.
pub proof fn law_pool_can_close_down(
    job: run::Job,
    files: Map<Seq<char>, Seq<u8>>,
    jobs: nat,
) -> (turns: Seq<int>)
    requires
        jobs >= 1,
    ensures
        are_turns(jobs, turns),
        closed_down(job, pool_by(job, files, jobs, turns)),
{
    lemma_first_worker_closes_down(job, files, jobs, seq![])
}

} // verus!
