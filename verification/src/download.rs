//! The downloader's decisions and bookkeeping: what to do with one task
//! given what is on disk and what the fetch returned, and the tally of a
//! finished batch. The HTTP fetch and the file write are outside work; a
//! worker hands their results in as plain values.

use vstd::prelude::*;
use crate::crawl::{FileEntry, FileEntryV};

verus! {

/// One fetch to perform: a source URL and the flat name the body is
/// stored under.
pub struct DownloadTask {
    pub source_url: String,
    pub destination_name: String,
}

pub ghost struct DownloadTaskV {
    pub source_url: Seq<char>,
    pub destination_name: Seq<char>,
}

impl View for DownloadTask {
    type V = DownloadTaskV;

    open spec fn view(&self) -> DownloadTaskV {
        DownloadTaskV {
            source_url: self.source_url@,
            destination_name: self.destination_name@,
        }
    }
}

#[derive(Clone, Copy, PartialEq, Eq, Structural, Debug)]
pub enum FailReason {
    /// The server answered with a status outside the 2xx range.
    Status(u16),
    /// The request itself failed: no status was received.
    Network,
    /// The body could not be written to the destination.
    Filesystem,
}

#[derive(Clone, Copy, PartialEq, Eq, Structural, Debug)]
pub enum DownloadOutcome {
    Succeeded,
    Skipped,
    Failed(FailReason),
}

/// The one task an entry becomes: fetch its URL, store it under its name.
pub open spec fn task_of(e: FileEntryV) -> DownloadTaskV {
    DownloadTaskV { source_url: e.url, destination_name: e.name }
}

/// Each filtered entry becomes exactly one task, in order.
pub open spec fn tasks_of(es: Seq<FileEntryV>) -> Seq<DownloadTaskV>
    decreases es.len(),
{
    if es.len() == 0 {
        Seq::empty()
    } else {
        tasks_of(es.drop_last()).push(task_of(es.last()))
    }
}

/// Builds the download tasks for a list of entries, one to one and in
/// order.
pub fn build_tasks(entries: &Vec<FileEntry>) -> (r: Vec<DownloadTask>)
    ensures
        r@.map_values(|t: DownloadTask| t@) == tasks_of(
            entries@.map_values(|e: FileEntry| e@),
        ),
{
    let mut tasks: Vec<DownloadTask> = Vec::new();
    let mut i: usize = 0;
    while i < entries.len()
        invariant
            i <= entries.len(),
            tasks@.map_values(|t: DownloadTask| t@) == tasks_of(
                entries@.map_values(|e: FileEntry| e@).take(i as int),
            ),
        decreases entries.len() - i,
    {
        let e = &entries[i];
        proof {
            let es = entries@.map_values(|e: FileEntry| e@);
            assert(es.take(i + 1).drop_last() =~= es.take(i as int));
            assert(es.take(i + 1).last() == e@);
        }
        tasks.push(
            DownloadTask {
                source_url: e.url.clone(),
                destination_name: e.name.clone(),
            },
        );
        proof {
            assert(tasks@.map_values(|t: DownloadTask| t@) =~= tasks_of(
                entries@.map_values(|e: FileEntry| e@).take(i + 1),
            ));
        }
        i = i + 1;
    }
    proof {
        assert(entries@.map_values(|e: FileEntry| e@).take(entries@.len() as int)
            =~= entries@.map_values(|e: FileEntry| e@));
    }
    tasks
}

/// Success is any 2xx status; everything else fails with that status.
pub open spec fn spec_fetch_outcome(status: Option<u16>, write_ok: bool) -> DownloadOutcome {
    match status {
        None => DownloadOutcome::Failed(FailReason::Network),
        Some(st) => if !(200 <= st < 300) {
            DownloadOutcome::Failed(FailReason::Status(st))
        } else if write_ok {
            DownloadOutcome::Succeeded
        } else {
            DownloadOutcome::Failed(FailReason::Filesystem)
        },
    }
}

/// A task whose destination already exists is skipped, never fetched and
/// never truncated; only otherwise does the fetch decide.
pub open spec fn spec_task_outcome(
    destination_exists: bool,
    status: Option<u16>,
    write_ok: bool,
) -> DownloadOutcome {
    if destination_exists {
        DownloadOutcome::Skipped
    } else {
        spec_fetch_outcome(status, write_ok)
    }
}

/// Whether a status code counts as success.
pub fn is_success_status(status: u16) -> (r: bool)
    ensures
        r == (200 <= status < 300),
{
    200 <= status && status < 300
}

/// The outcome of one task that was not skipped: `status` is what the
/// server answered (`None` when the request itself failed), `write_ok`
/// whether the body reached the destination file.
pub fn fetch_outcome(status: Option<u16>, write_ok: bool) -> (o: DownloadOutcome)
    ensures
        o == spec_fetch_outcome(status, write_ok),
        !(o is Skipped),
{
    match status {
        None => DownloadOutcome::Failed(FailReason::Network),
        Some(st) => {
            if !is_success_status(st) {
                DownloadOutcome::Failed(FailReason::Status(st))
            } else if write_ok {
                DownloadOutcome::Succeeded
            } else {
                DownloadOutcome::Failed(FailReason::Filesystem)
            }
        },
    }
}

/// The outcome of one task: skipped exactly when the destination already
/// existed.
pub fn task_outcome(destination_exists: bool, status: Option<u16>, write_ok: bool) -> (o:
    DownloadOutcome)
    ensures
        o == spec_task_outcome(destination_exists, status, write_ok),
        o is Skipped <==> destination_exists,
{
    if destination_exists {
        DownloadOutcome::Skipped
    } else {
        fetch_outcome(status, write_ok)
    }
}

pub open spec fn count_succeeded(s: Seq<DownloadOutcome>) -> int
    decreases s.len(),
{
    if s.len() == 0 {
        0
    } else {
        count_succeeded(s.drop_last()) + if s.last() is Succeeded {
            1int
        } else {
            0int
        }
    }
}

pub open spec fn count_skipped(s: Seq<DownloadOutcome>) -> int
    decreases s.len(),
{
    if s.len() == 0 {
        0
    } else {
        count_skipped(s.drop_last()) + if s.last() is Skipped {
            1int
        } else {
            0int
        }
    }
}

pub open spec fn count_failed(s: Seq<DownloadOutcome>) -> int
    decreases s.len(),
{
    if s.len() == 0 {
        0
    } else {
        count_failed(s.drop_last()) + if s.last() is Failed {
            1int
        } else {
            0int
        }
    }
}

/// The final tally of a batch.
#[derive(Clone, Copy, PartialEq, Eq, Structural, Debug)]
pub struct Tally {
    pub succeeded: usize,
    pub skipped: usize,
    pub failed: usize,
}

/// Counts a batch's outcomes; the three counts partition the batch.
pub fn summarize(outcomes: &Vec<DownloadOutcome>) -> (t: Tally)
    ensures
        t.succeeded == count_succeeded(outcomes@),
        t.skipped == count_skipped(outcomes@),
        t.failed == count_failed(outcomes@),
        t.succeeded + t.skipped + t.failed == outcomes@.len(),
{
    let mut succeeded: usize = 0;
    let mut skipped: usize = 0;
    let mut failed: usize = 0;
    let mut i: usize = 0;
    while i < outcomes.len()
        invariant
            i <= outcomes.len(),
            succeeded == count_succeeded(outcomes@.take(i as int)),
            skipped == count_skipped(outcomes@.take(i as int)),
            failed == count_failed(outcomes@.take(i as int)),
            succeeded + skipped + failed == i,
        decreases outcomes.len() - i,
    {
        proof {
            assert(outcomes@.take(i + 1).drop_last() =~= outcomes@.take(i as int));
            assert(outcomes@.take(i + 1).last() == outcomes@[i as int]);
        }
        match outcomes[i] {
            DownloadOutcome::Succeeded => { succeeded = succeeded + 1; },
            DownloadOutcome::Skipped => { skipped = skipped + 1; },
            DownloadOutcome::Failed(_) => { failed = failed + 1; },
        }
        i = i + 1;
    }
    proof {
        assert(outcomes@.take(outcomes@.len() as int) =~= outcomes@);
    }
    Tally { succeeded, skipped, failed }
}

pub open spec fn count_true(flags: Seq<bool>) -> int
    decreases flags.len(),
{
    if flags.len() == 0 {
        0
    } else {
        count_true(flags.drop_last()) + if flags.last() {
            1int
        } else {
            0int
        }
    }
}

proof fn lemma_count_true_single(flags: Seq<bool>, k: int)
    requires
        0 <= k < flags.len(),
        forall|j: int| 0 <= j < flags.len() ==> (flags[j] <==> j == k),
    ensures
        count_true(flags) == 1,
    decreases flags.len(),
{
    if k == flags.len() - 1 {
        lemma_count_true_none(flags.drop_last());
    } else {
        lemma_count_true_single(flags.drop_last(), k);
    }
}

proof fn lemma_count_true_none(flags: Seq<bool>)
    requires
        forall|j: int| 0 <= j < flags.len() ==> !flags[j],
    ensures
        count_true(flags) == 0,
    decreases flags.len(),
{
    if flags.len() > 0 {
        lemma_count_true_none(flags.drop_last());
    }
}

/// In a batch the skipped outcomes are exactly the tasks whose destination
/// already existed.
pub proof fn lemma_skips_match_existing(
    exists_flags: Seq<bool>,
    status: Seq<Option<u16>>,
    write_ok: Seq<bool>,
)
    requires
        status.len() == exists_flags.len(),
        write_ok.len() == exists_flags.len(),
    ensures
        count_skipped(
            Seq::new(
                exists_flags.len(),
                |j: int| spec_task_outcome(exists_flags[j], status[j], write_ok[j]),
            ),
        ) == count_true(exists_flags),
    decreases exists_flags.len(),
{
    let n = exists_flags.len() as int;
    let outs = Seq::new(n as nat, |j: int| spec_task_outcome(exists_flags[j], status[j], write_ok[j]));
    if n > 0 {
        lemma_skips_match_existing(
            exists_flags.drop_last(),
            status.drop_last(),
            write_ok.drop_last(),
        );
        assert(outs.drop_last() =~= Seq::new(
            (n - 1) as nat,
            |j: int|
                spec_task_outcome(
                    exists_flags.drop_last()[j],
                    status.drop_last()[j],
                    write_ok.drop_last()[j],
                ),
        ));
        assert(outs.last() == spec_task_outcome(exists_flags.last(), status.last(), write_ok.last()));
    } else {
        assert(outs =~= Seq::<DownloadOutcome>::empty());
    }
}

/// A batch with exactly one already-existing destination yields exactly
/// one skipped outcome; every other task succeeds or fails.
pub proof fn lemma_single_existing_destination(
    exists_flags: Seq<bool>,
    status: Seq<Option<u16>>,
    write_ok: Seq<bool>,
    k: int,
)
    requires
        status.len() == exists_flags.len(),
        write_ok.len() == exists_flags.len(),
        0 <= k < exists_flags.len(),
        forall|j: int| 0 <= j < exists_flags.len() ==> (exists_flags[j] <==> j == k),
    ensures
        ({
            let outs = Seq::new(
                exists_flags.len(),
                |j: int| spec_task_outcome(exists_flags[j], status[j], write_ok[j]),
            );
            &&& count_skipped(outs) == 1
            &&& count_succeeded(outs) + count_failed(outs) == exists_flags.len() - 1
        }),
{
    let outs = Seq::new(
        exists_flags.len(),
        |j: int| spec_task_outcome(exists_flags[j], status[j], write_ok[j]),
    );
    lemma_skips_match_existing(exists_flags, status, write_ok);
    lemma_count_true_single(exists_flags, k);
    lemma_counts_partition(outs);
}

/// Every outcome is counted exactly once.
pub proof fn lemma_counts_partition(s: Seq<DownloadOutcome>)
    ensures
        count_succeeded(s) + count_skipped(s) + count_failed(s) == s.len(),
    decreases s.len(),
{
    if s.len() > 0 {
        lemma_counts_partition(s.drop_last());
    }
}

} // verus!
