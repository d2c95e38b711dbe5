use vstd::prelude::*;

use crate::distributor_cache_db::{is_stale, recorded, FileDistributorCache, QueryMetaError};
use crate::distributor_config::{source_views, texts, DistributorItem, SourceFile};
use crate::paths::{file_name_of, join_path, joined_path, path_file_name};

verus! {

#[derive(Debug, Clone, PartialEq, Eq)]
pub enum DistributorError {
    IoError(String),
}

/// The outcome of one copy attempt, of one skipped source, or of saving the cache.
#[derive(Debug, Clone, PartialEq, Eq)]
pub enum DistributorResultType {
    Copied(String, String),
    Same(String, String),
    Saved,
    UpToDate(String),
}

pub type DistributorResult = Result<DistributorResultType, DistributorError>;

/// Why two files could not be compared.
#[derive(Debug, Clone, PartialEq, Eq)]
pub enum FileCompareError {
    IoError(String),
}

/// One source file to be copied to one full destination path.
#[derive(Debug, Clone, PartialEq)]
pub struct CopyJob {
    pub source: String,
    pub target: String,
}

pub open spec fn job_views(jobs: Seq<CopyJob>) -> Seq<(Seq<char>, Seq<char>)> {
    jobs.map_values(|j: CopyJob| (j.source@, j.target@))
}

pub open spec fn is_up_to_date_of(r: DistributorResult, path: Seq<char>) -> bool {
    r matches Ok(DistributorResultType::UpToDate(p)) && p@ == path
}

/// What one distribution will do: the outcomes known before any copy, the
/// copies to attempt in order, and the sources to record once they are done.
pub struct CopyPlan {
    pub results: Vec<DistributorResult>,
    pub jobs: Vec<CopyJob>,
    pub record: Vec<String>,
}

/// The paths of sources given with their relative paths.
pub open spec fn source_paths(sources: Seq<(Seq<char>, Seq<char>)>) -> Seq<Seq<char>> {
    sources.map_values(|s: (Seq<char>, Seq<char>)| s.0)
}

/// The sources of a directory root that must be copied: all of them when
/// forced, else those the cache finds stale.
pub open spec fn stale_sources(
    cache: Map<Seq<char>, u128>,
    sources: Seq<(Seq<char>, Seq<char>)>,
    modified: Seq<Result<u128, QueryMetaError>>,
    force: bool,
) -> Seq<(Seq<char>, Seq<char>)>
    decreases sources.len(),
{
    if sources.len() == 0 {
        Seq::empty()
    } else {
        let rest = stale_sources(cache, sources.drop_last(), modified.drop_last(), force);
        if force || is_stale(cache, sources.last().0, modified.last()) {
            rest.push(sources.last())
        } else {
            rest
        }
    }
}

/// The paths of the sources that are skipped as up to date.
pub open spec fn current_sources(
    cache: Map<Seq<char>, u128>,
    sources: Seq<(Seq<char>, Seq<char>)>,
    modified: Seq<Result<u128, QueryMetaError>>,
    force: bool,
) -> Seq<Seq<char>>
    decreases sources.len(),
{
    if sources.len() == 0 {
        Seq::empty()
    } else {
        let rest = current_sources(cache, sources.drop_last(), modified.drop_last(), force);
        if force || is_stale(cache, sources.last().0, modified.last()) {
            rest
        } else {
            rest.push(sources.last().0)
        }
    }
}

/// For each destination in turn, every given source placed under it by its
/// path relative to the root.
pub open spec fn directory_jobs(targets: Seq<Seq<char>>, sources: Seq<(Seq<char>, Seq<char>)>) -> Seq<
    (Seq<char>, Seq<char>),
>
    decreases targets.len(),
{
    if targets.len() == 0 {
        Seq::empty()
    } else {
        directory_jobs(targets.drop_last(), sources) + placed_under(targets.last(), sources)
    }
}

/// Each source placed under `target` by its path relative to the root.
pub open spec fn placed_under(target: Seq<char>, sources: Seq<(Seq<char>, Seq<char>)>) -> Seq<(Seq<char>, Seq<char>)> {
    sources.map_values(|s: (Seq<char>, Seq<char>)| (s.0, joined_path(target, s.1)))
}

/// The destination of a single-file root: inside a destination that is an
/// existing directory, under the file's own name; else the destination itself.
pub open spec fn single_file_target(target: Seq<char>, target_is_dir: bool, name: Seq<char>) -> Seq<char> {
    if target_is_dir {
        joined_path(target, name)
    } else {
        target
    }
}

/// The cache after recording each path in order with its modification time.
pub open spec fn recorded_all(
    cache: Map<Seq<char>, u128>,
    paths: Seq<Seq<char>>,
    modified: Seq<Result<u128, QueryMetaError>>,
) -> Map<Seq<char>, u128>
    decreases paths.len(),
{
    if paths.len() == 0 {
        cache
    } else {
        recorded(recorded_all(cache, paths.drop_last(), modified.drop_last()), paths.last(), modified.last())
    }
}

/// A copy outcome that leaves the destination holding the source's bytes.
pub open spec fn copy_succeeded(r: DistributorResult) -> bool {
    r matches Ok(DistributorResultType::Copied(_, _)) || r matches Ok(DistributorResultType::Same(_, _))
}

/// Some copy of `path` among `jobs` (each with the outcome at its position)
/// did not succeed.
pub open spec fn copy_failed(
    jobs: Seq<(Seq<char>, Seq<char>)>,
    outcomes: Seq<DistributorResult>,
    path: Seq<char>,
) -> bool {
    exists|k: int| 0 <= k < jobs.len() && (#[trigger] jobs[k]).0 == path && !copy_succeeded(outcomes[k])
}

/// The cache after recording, in order, each path none of whose copies
/// failed; a path with a failed copy keeps whatever record it had.
pub open spec fn recorded_successes(
    cache: Map<Seq<char>, u128>,
    paths: Seq<Seq<char>>,
    modified: Seq<Result<u128, QueryMetaError>>,
    jobs: Seq<(Seq<char>, Seq<char>)>,
    outcomes: Seq<DistributorResult>,
) -> Map<Seq<char>, u128>
    decreases paths.len(),
{
    if paths.len() == 0 {
        cache
    } else {
        let before = recorded_successes(cache, paths.drop_last(), modified.drop_last(), jobs, outcomes);
        if copy_failed(jobs, outcomes, paths.last()) {
            before
        } else {
            recorded(before, paths.last(), modified.last())
        }
    }
}

/// Where a copy stands: comparing the destination with the source block by
/// block, or writing the source's content to the destination.
#[derive(Debug, Clone, Copy, PartialEq, Eq)]
pub enum CopyPhase {
    Comparing,
    Writing,
}

/// What the caller observed while carrying out the pending step of a copy.
#[derive(Debug)]
pub enum CopyEvent {
    /// The next block of the source and of the destination, read in lockstep;
    /// an empty block means end of file.
    Blocks(Vec<u8>, Vec<u8>),
    CompareFailed(FileCompareError),
    Written,
    WriteFailed(DistributorError),
}

/// The copy of one source file to one full destination path. A destination
/// that exists as a file is first compared with the source; an identical one
/// is left untouched. Otherwise, or when the comparison fails, the source's
/// content is written.
#[derive(Debug)]
pub struct CopyTask {
    pub source: String,
    pub target: String,
    pub phase: CopyPhase,
}

/// One step of a copy: the next task, or the outcome once the copy is over.
/// An event that does not answer the pending step changes nothing.
pub open spec fn copy_step(task: CopyTask, event: CopyEvent) -> Result<CopyTask, DistributorResult> {
    match (task.phase, event) {
        (CopyPhase::Comparing, CopyEvent::Blocks(a, b)) => if a@ != b@ {
            Ok(CopyTask { source: task.source, target: task.target, phase: CopyPhase::Writing })
        } else if a@.len() == 0 {
            Err(Ok(DistributorResultType::Same(task.source, task.target)))
        } else {
            Ok(task)
        },
        (CopyPhase::Comparing, CopyEvent::CompareFailed(_)) => Ok(
            CopyTask { source: task.source, target: task.target, phase: CopyPhase::Writing },
        ),
        (CopyPhase::Writing, CopyEvent::Written) => Err(
            Ok(DistributorResultType::Copied(task.source, task.target)),
        ),
        (CopyPhase::Writing, CopyEvent::WriteFailed(e)) => Err(Err(e)),
        _ => Ok(task),
    }
}

/// The state after feeding `events` in order, stopping at the outcome.
pub open spec fn run_copy(task: CopyTask, events: Seq<CopyEvent>) -> Result<CopyTask, DistributorResult>
    decreases events.len(),
{
    if events.len() == 0 {
        Ok(task)
    } else {
        match copy_step(task, events[0]) {
            Ok(next) => run_copy(next, events.drop_first()),
            Err(outcome) => Err(outcome),
        }
    }
}

fn same_bytes(a: &Vec<u8>, b: &Vec<u8>) -> (r: bool)
    ensures
        r == (a@ == b@),
{
    if a.len() != b.len() {
        return false;
    }
    let mut i: usize = 0;
    while i < a.len()
        invariant
            i <= a@.len(),
            a@.len() == b@.len(),
            forall|k: int| 0 <= k < i ==> a@[k] == b@[k],
        decreases a@.len() - i,
    {
        if a[i] != b[i] {
            return false;
        }
        i = i + 1;
    }
    assert(a@ =~= b@);
    true
}

impl CopyTask {
    /// Starts the copy of `job`: by comparison when its destination exists as
    /// a file, else by writing.
    pub fn new(job: CopyJob, target_is_file: bool) -> (r: Self)
        ensures
            r.source == job.source,
            r.target == job.target,
            r.phase == (if target_is_file {
                CopyPhase::Comparing
            } else {
                CopyPhase::Writing
            }),
    {
        let phase = if target_is_file {
            CopyPhase::Comparing
        } else {
            CopyPhase::Writing
        };
        CopyTask { source: job.source, target: job.target, phase }
    }

    /// Feeds what was observed; returns the next task, or the outcome.
    pub fn advance(self, event: CopyEvent) -> (r: Result<CopyTask, DistributorResult>)
        ensures
            r == copy_step(self, event),
    {
        let CopyTask { source, target, phase } = self;
        match phase {
            CopyPhase::Comparing => match event {
                CopyEvent::Blocks(a, b) => {
                    if !same_bytes(&a, &b) {
                        Ok(CopyTask { source, target, phase: CopyPhase::Writing })
                    } else if a.len() == 0 {
                        Err(Ok(DistributorResultType::Same(source, target)))
                    } else {
                        Ok(CopyTask { source, target, phase })
                    }
                },
                CopyEvent::CompareFailed(_) => Ok(CopyTask { source, target, phase: CopyPhase::Writing }),
                _ => Ok(CopyTask { source, target, phase }),
            },
            CopyPhase::Writing => match event {
                CopyEvent::Written => Err(Ok(DistributorResultType::Copied(source, target))),
                CopyEvent::WriteFailed(e) => Err(Err(e)),
                _ => Ok(CopyTask { source, target, phase }),
            },
        }
    }
}

/// A destination whose blocks all equal the source's, up to a common end of
/// file, is reported as having the same content, and the copy never reaches
/// the writing phase.
pub proof fn lemma_identical_content_is_same(task: CopyTask, events: Seq<CopyEvent>)
    requires
        task.phase == CopyPhase::Comparing,
        events.len() > 0,
        forall|i: int|
            0 <= i < events.len() - 1 ==> (#[trigger] events[i] matches CopyEvent::Blocks(a, b) && a@ == b@
                && a@.len() > 0),
        events.last() matches CopyEvent::Blocks(a, b) && a@.len() == 0 && b@.len() == 0,
    ensures
        run_copy(task, events) == Err::<CopyTask, DistributorResult>(
            Ok(DistributorResultType::Same(task.source, task.target)),
        ),
        forall|k: int| 0 <= k < events.len() ==> run_copy(task, #[trigger] events.take(k)) == Ok::<
            CopyTask,
            DistributorResult,
        >(task),
    decreases events.len(),
{
    if let CopyEvent::Blocks(a, b) = events.last() {
        assert(a@ =~= b@);
    }
    if events.len() > 1 {
        let rest = events.drop_first();
        assert forall|i: int| 0 <= i < rest.len() - 1 implies (#[trigger] rest[i] matches CopyEvent::Blocks(
            a,
            b,
        ) && a@ == b@ && a@.len() > 0) by {
            assert(rest[i] == events[i + 1]);
        }
        lemma_identical_content_is_same(task, rest);
        assert forall|k: int| 0 <= k < events.len() implies run_copy(task, #[trigger] events.take(k)) == Ok::<
            CopyTask,
            DistributorResult,
        >(task) by {
            if k > 0 {
                assert(events.take(k).drop_first() =~= rest.take(k - 1));
                assert(events.take(k)[0] == events[0]);
            }
        }
    } else {
        assert forall|k: int| 0 <= k < events.len() implies run_copy(task, #[trigger] events.take(k)) == Ok::<
            CopyTask,
            DistributorResult,
        >(task) by {
            assert(events.take(k).len() == 0);
        }
    }
}

proof fn lemma_successes_record_all(
    cache: Map<Seq<char>, u128>,
    paths: Seq<Seq<char>>,
    modified: Seq<Result<u128, QueryMetaError>>,
    jobs: Seq<(Seq<char>, Seq<char>)>,
    outcomes: Seq<DistributorResult>,
)
    requires
        forall|i: int| 0 <= i < paths.len() ==> !copy_failed(jobs, outcomes, #[trigger] paths[i]),
    ensures
        recorded_successes(cache, paths, modified, jobs, outcomes) == recorded_all(cache, paths, modified),
    decreases paths.len(),
{
    if paths.len() > 0 {
        let p0 = paths.drop_last();
        assert forall|i: int| 0 <= i < p0.len() implies !copy_failed(jobs, outcomes, #[trigger] p0[i]) by {
            assert(p0[i] == paths[i]);
        }
        lemma_successes_record_all(cache, p0, modified.drop_last(), jobs, outcomes);
        assert(!copy_failed(jobs, outcomes, paths[paths.len() - 1]));
    }
}

/// A source with a failed copy keeps the record it had, or stays without
/// one, so a later run still finds it stale.
pub proof fn lemma_failed_copy_keeps_record(
    cache: Map<Seq<char>, u128>,
    paths: Seq<Seq<char>>,
    modified: Seq<Result<u128, QueryMetaError>>,
    jobs: Seq<(Seq<char>, Seq<char>)>,
    outcomes: Seq<DistributorResult>,
    path: Seq<char>,
)
    requires
        copy_failed(jobs, outcomes, path),
    ensures
        recorded_successes(cache, paths, modified, jobs, outcomes).contains_key(path) == cache.contains_key(path),
        cache.contains_key(path) ==> recorded_successes(cache, paths, modified, jobs, outcomes)[path] == cache[path],
        !cache.contains_key(path) ==> forall|t: Result<u128, QueryMetaError>|
            is_stale(recorded_successes(cache, paths, modified, jobs, outcomes), path, t),
    decreases paths.len(),
{
    if paths.len() > 0 {
        lemma_failed_copy_keeps_record(cache, paths.drop_last(), modified.drop_last(), jobs, outcomes, path);
    }
}

proof fn lemma_recorded_all_holds(
    cache: Map<Seq<char>, u128>,
    paths: Seq<Seq<char>>,
    modified: Seq<Result<u128, QueryMetaError>>,
)
    requires
        modified.len() == paths.len(),
        forall|i: int| 0 <= i < modified.len() ==> #[trigger] modified[i] is Ok,
        forall|i: int, j: int|
            0 <= i < paths.len() && 0 <= j < paths.len() && #[trigger] paths[i] == #[trigger] paths[j]
                ==> modified[i] == modified[j],
    ensures
        forall|i: int|
            0 <= i < paths.len() ==> recorded_all(cache, paths, modified).contains_key(#[trigger] paths[i])
                && Ok::<u128, QueryMetaError>(recorded_all(cache, paths, modified)[paths[i]]) == modified[i],
    decreases paths.len(),
{
    if paths.len() > 0 {
        let n = paths.len() - 1;
        let (p0, m0) = (paths.drop_last(), modified.drop_last());
        assert forall|i: int, j: int|
            0 <= i < p0.len() && 0 <= j < p0.len() && #[trigger] p0[i] == #[trigger] p0[j] implies m0[i]
            == m0[j] by {
            assert(paths[i] == p0[i] && paths[j] == p0[j]);
        }
        assert forall|i: int| 0 <= i < m0.len() implies #[trigger] m0[i] is Ok by {
            assert(modified[i] is Ok);
        }
        lemma_recorded_all_holds(cache, p0, m0);
        assert(modified[n] is Ok);
        assert forall|i: int| 0 <= i < paths.len() implies recorded_all(cache, paths, modified).contains_key(
            #[trigger] paths[i],
        ) && Ok::<u128, QueryMetaError>(recorded_all(cache, paths, modified)[paths[i]]) == modified[i] by {
            if i < n {
                assert(p0[i] == paths[i]);
                assert(m0[i] == modified[i]);
                if paths[i] == paths[n] {
                    assert(modified[i] == modified[n]);
                }
            }
        }
    }
}

/// Recording every resolved source with a readable modification time (one
/// time per path), when none of their copies failed, leaves each of them
/// current at that time. The sources to record do not depend on `force`, so
/// a forced run updates the cache as an unforced one does.
pub proof fn lemma_recorded_sources_are_current(
    cache: Map<Seq<char>, u128>,
    paths: Seq<Seq<char>>,
    modified: Seq<Result<u128, QueryMetaError>>,
    jobs: Seq<(Seq<char>, Seq<char>)>,
    outcomes: Seq<DistributorResult>,
)
    requires
        modified.len() == paths.len(),
        forall|i: int| 0 <= i < modified.len() ==> #[trigger] modified[i] is Ok,
        forall|i: int, j: int|
            0 <= i < paths.len() && 0 <= j < paths.len() && #[trigger] paths[i] == #[trigger] paths[j]
                ==> modified[i] == modified[j],
        forall|i: int| 0 <= i < paths.len() ==> !copy_failed(jobs, outcomes, #[trigger] paths[i]),
    ensures
        forall|i: int|
            0 <= i < paths.len() ==> !is_stale(
                recorded_successes(cache, paths, modified, jobs, outcomes),
                #[trigger] paths[i],
                modified[i],
            ),
{
    lemma_successes_record_all(cache, paths, modified, jobs, outcomes);
    lemma_recorded_all_holds(cache, paths, modified);
    assert forall|i: int| 0 <= i < paths.len() implies !is_stale(
        recorded_all(cache, paths, modified),
        #[trigger] paths[i],
        modified[i],
    ) by {
        assert(modified[i] is Ok);
    }
}

/// A single-file root recorded by the first run with a readable time, with
/// no failed copy, and not modified since, is up to date on the next
/// unforced run.
pub proof fn lemma_second_run_single_file_is_up_to_date(
    cache: Map<Seq<char>, u128>,
    root: Seq<char>,
    t: u128,
    jobs: Seq<(Seq<char>, Seq<char>)>,
    outcomes: Seq<DistributorResult>,
)
    requires
        !copy_failed(jobs, outcomes, root),
    ensures
        !is_stale(
            recorded_successes(cache, seq![root], seq![Ok::<u128, QueryMetaError>(t)], jobs, outcomes),
            root,
            Ok(t),
        ),
{
    let paths = seq![root];
    let modified = seq![Ok::<u128, QueryMetaError>(t)];
    assert(paths.drop_last() =~= Seq::<Seq<char>>::empty());
    assert(modified.drop_last() =~= Seq::<Result<u128, QueryMetaError>>::empty());
}

proof fn lemma_nothing_stale(
    cache: Map<Seq<char>, u128>,
    sources: Seq<(Seq<char>, Seq<char>)>,
    modified: Seq<Result<u128, QueryMetaError>>,
)
    requires
        modified.len() == sources.len(),
        forall|i: int| 0 <= i < sources.len() ==> !is_stale(cache, #[trigger] sources[i].0, modified[i]),
    ensures
        stale_sources(cache, sources, modified, false) == Seq::<(Seq<char>, Seq<char>)>::empty(),
        current_sources(cache, sources, modified, false) == source_paths(sources),
    decreases sources.len(),
{
    if sources.len() > 0 {
        let (s0, m0) = (sources.drop_last(), modified.drop_last());
        assert forall|i: int| 0 <= i < s0.len() implies !is_stale(cache, #[trigger] s0[i].0, m0[i]) by {
            assert(s0[i] == sources[i]);
            assert(!is_stale(cache, sources[i].0, modified[i]));
        }
        lemma_nothing_stale(cache, s0, m0);
        assert(!is_stale(cache, sources[sources.len() - 1].0, modified[sources.len() - 1]));
        assert(source_paths(sources) =~= source_paths(s0).push(sources.last().0));
    } else {
        assert(source_paths(sources) =~= Seq::<Seq<char>>::empty());
    }
}

/// Running a directory distribution a second time, with every source recorded
/// by a first run whose copies all succeeded and no file changed since (each
/// path keeps one readable modification time), finds every source up to date
/// and plans no copy.
pub proof fn lemma_second_run_is_up_to_date(
    cache: Map<Seq<char>, u128>,
    sources: Seq<(Seq<char>, Seq<char>)>,
    modified: Seq<Result<u128, QueryMetaError>>,
    targets: Seq<Seq<char>>,
    jobs: Seq<(Seq<char>, Seq<char>)>,
    outcomes: Seq<DistributorResult>,
)
    requires
        modified.len() == sources.len(),
        forall|i: int| 0 <= i < modified.len() ==> #[trigger] modified[i] is Ok,
        forall|i: int, j: int|
            0 <= i < sources.len() && 0 <= j < sources.len() && #[trigger] sources[i].0 == #[trigger] sources[j].0
                ==> modified[i] == modified[j],
        forall|i: int| 0 <= i < sources.len() ==> !copy_failed(jobs, outcomes, (#[trigger] sources[i]).0),
    ensures
        ({
            let after = recorded_successes(cache, source_paths(sources), modified, jobs, outcomes);
            &&& stale_sources(after, sources, modified, false) == Seq::<(Seq<char>, Seq<char>)>::empty()
            &&& current_sources(after, sources, modified, false) == source_paths(sources)
            &&& directory_jobs(targets, stale_sources(after, sources, modified, false)) == Seq::<
                (Seq<char>, Seq<char>),
            >::empty()
        }),
{
    let paths = source_paths(sources);
    assert forall|i: int, j: int|
        0 <= i < paths.len() && 0 <= j < paths.len() && #[trigger] paths[i] == #[trigger] paths[j] implies modified[i]
        == modified[j] by {
        assert(paths[i] == sources[i].0 && paths[j] == sources[j].0);
    }
    assert forall|i: int| 0 <= i < paths.len() implies !copy_failed(jobs, outcomes, #[trigger] paths[i]) by {
        assert(paths[i] == sources[i].0);
    }
    lemma_recorded_sources_are_current(cache, paths, modified, jobs, outcomes);
    let after = recorded_successes(cache, paths, modified, jobs, outcomes);
    assert forall|i: int| 0 <= i < sources.len() implies !is_stale(after, #[trigger] sources[i].0, modified[i]) by {
        assert(paths[i] == sources[i].0);
    }
    lemma_nothing_stale(after, sources, modified);
    lemma_no_jobs_without_sources(targets);
}

proof fn lemma_no_jobs_without_sources(targets: Seq<Seq<char>>)
    ensures
        directory_jobs(targets, Seq::empty()) == Seq::<(Seq<char>, Seq<char>)>::empty(),
    decreases targets.len(),
{
    if targets.len() > 0 {
        lemma_no_jobs_without_sources(targets.drop_last());
        assert(placed_under(targets.last(), Seq::empty()) =~= Seq::<(Seq<char>, Seq<char>)>::empty());
        assert(directory_jobs(targets, Seq::empty()) =~= Seq::<(Seq<char>, Seq<char>)>::empty());
    }
}

/// A forced run attempts every resolved source, whatever the cache holds, and
/// reports none as up to date.
pub proof fn lemma_force_attempts_every_source(
    cache: Map<Seq<char>, u128>,
    sources: Seq<(Seq<char>, Seq<char>)>,
    modified: Seq<Result<u128, QueryMetaError>>,
)
    ensures
        stale_sources(cache, sources, modified, true) == sources,
        current_sources(cache, sources, modified, true) == Seq::<Seq<char>>::empty(),
    decreases sources.len(),
{
    if sources.len() > 0 {
        lemma_force_attempts_every_source(cache, sources.drop_last(), modified.drop_last());
        assert(sources.drop_last().push(sources.last()) =~= sources);
    }
}

/// The copy of a single file to `target_path`: inside it under `default_name`
/// when it is an existing directory, else to that path itself.
pub fn copy_file_to_with_default_name(
    source_file_path: &str,
    target_path: &str,
    default_name: &str,
    target_is_dir: bool,
) -> (r: CopyJob)
    ensures
        r.source@ == source_file_path@,
        r.target@ == single_file_target(target_path@, target_is_dir, default_name@),
{
    let target = if target_is_dir {
        join_path(target_path, default_name)
    } else {
        target_path.to_owned()
    };
    CopyJob { source: source_file_path.to_owned(), target }
}

/// A forced re-run plans every resolved source for every destination, and a
/// planned copy whose destination already holds the source's bytes (equal
/// blocks up to a common end of file) reports `Same` and never writes.
pub proof fn lemma_forced_rerun_reports_same(
    cache: Map<Seq<char>, u128>,
    sources: Seq<(Seq<char>, Seq<char>)>,
    modified: Seq<Result<u128, QueryMetaError>>,
    targets: Seq<Seq<char>>,
    task: CopyTask,
    events: Seq<CopyEvent>,
)
    requires
        task.phase == CopyPhase::Comparing,
        events.len() > 0,
        forall|i: int|
            0 <= i < events.len() - 1 ==> (#[trigger] events[i] matches CopyEvent::Blocks(a, b) && a@ == b@
                && a@.len() > 0),
        events.last() matches CopyEvent::Blocks(a, b) && a@.len() == 0 && b@.len() == 0,
    ensures
        directory_jobs(targets, stale_sources(cache, sources, modified, true)) == directory_jobs(targets, sources),
        run_copy(task, events) == Err::<CopyTask, DistributorResult>(
            Ok(DistributorResultType::Same(task.source, task.target)),
        ),
        forall|k: int| 0 <= k < events.len() ==> run_copy(task, #[trigger] events.take(k)) == Ok::<
            CopyTask,
            DistributorResult,
        >(task),
{
    lemma_force_attempts_every_source(cache, sources, modified);
    lemma_identical_content_is_same(task, events);
}

/// Owns the staleness cache for one run and plans each distribution against it.
pub struct Distributor {
    pub db_cache: FileDistributorCache,
}

impl Distributor {
    pub fn new(db_cache: FileDistributorCache) -> (r: Self)
        ensures
            r.db_cache@ == db_cache@,
            r.db_cache.spec_loaded_path() == db_cache.spec_loaded_path(),
    {
        Distributor { db_cache }
    }

    /// Forgets every record, so that the next run finds every source stale.
    pub fn clear_cache(&mut self)
        ensures
            final(self).db_cache@ == Map::<Seq<char>, u128>::empty(),
            final(self).db_cache.spec_loaded_path() == old(self).db_cache.spec_loaded_path(),
    {
        self.db_cache.clear_records();
    }

    /// Whether the cache is worth persisting at shutdown: an empty one is not.
    pub fn should_save(&self) -> (r: bool)
        ensures
            r == (self.db_cache@.dom().len() > 0),
    {
        !self.db_cache.is_empty()
    }

    /// Plans a single-file root. Unless forced, a file that is not stale is
    /// skipped; otherwise it goes to every destination and is recorded once.
    pub fn plan_single_file(
        &self,
        item: &DistributorItem,
        force: bool,
        modified: &Result<u128, QueryMetaError>,
        target_is_dir: &Vec<bool>,
    ) -> (r: CopyPlan)
        requires
            target_is_dir@.len() == item.to@.len(),
        ensures
            !force && !is_stale(self.db_cache@, item.root@, *modified) ==> {
                &&& r.results@.len() == 1
                &&& is_up_to_date_of(r.results@[0], item.root@)
                &&& r.jobs@.len() == 0
                &&& r.record@.len() == 0
            },
            (force || is_stale(self.db_cache@, item.root@, *modified)) ==> match path_file_name(item.root@) {
                Some(name) => {
                    &&& r.results@.len() == 0
                    &&& r.jobs@.len() == item.to@.len()
                    &&& forall|i: int|
                        0 <= i < item.to@.len() ==> #[trigger] job_views(r.jobs@)[i] == (
                            item.root@,
                            single_file_target(item.to@[i]@, target_is_dir@[i], name),
                        )
                    &&& texts(r.record@) == seq![item.root@]
                },
                None => {
                    &&& r.results@.len() == 1
                    &&& r.results@[0] is Err
                    &&& r.jobs@.len() == 0
                    &&& r.record@.len() == 0
                },
            },
    {
        let mut results: Vec<DistributorResult> = Vec::new();
        let mut jobs: Vec<CopyJob> = Vec::new();
        let mut record: Vec<String> = Vec::new();
        if !force && !self.db_cache.is_file_outdated(item.root.as_str(), modified) {
            results.push(Ok(DistributorResultType::UpToDate(item.root.clone())));
            return CopyPlan { results, jobs, record };
        }
        match file_name_of(item.root.as_str()) {
            None => {
                results.push(Err(DistributorError::IoError("file name is invalid.".to_owned())));
            },
            Some(name) => {
                let mut i: usize = 0;
                while i < item.to.len()
                    invariant
                        i <= item.to@.len(),
                        target_is_dir@.len() == item.to@.len(),
                        path_file_name(item.root@) == Some(name@),
                        jobs@.len() == i,
                        forall|k: int|
                            0 <= k < i ==> #[trigger] job_views(jobs@)[k] == (
                                item.root@,
                                single_file_target(item.to@[k]@, target_is_dir@[k], name@),
                            ),
                    decreases item.to@.len() - i,
                {
                    let job = copy_file_to_with_default_name(
                        item.root.as_str(),
                        item.to[i].as_str(),
                        name.as_str(),
                        target_is_dir[i],
                    );
                    let ghost before = jobs@;
                    jobs.push(job);
                    assert(job_views(jobs@)[i as int] == (job.source@, job.target@));
                    assert forall|k: int| 0 <= k < i implies #[trigger] job_views(jobs@)[k] == job_views(before)[k] by {
                        assert(jobs@[k] == before[k]);
                    }
                    i = i + 1;
                }
                record.push(item.root.clone());
                assert(texts(record@) =~= seq![item.root@]);
            },
        }
        CopyPlan { results, jobs, record }
    }

    /// Plans a directory root from its resolved sources and their current
    /// modification times: each source that is not stale (and not forced) is
    /// reported up to date once; for each destination in turn every stale
    /// source is copied under its relative path; every source is recorded.
    pub fn plan_directory(
        &self,
        item: &DistributorItem,
        sources: &Vec<SourceFile>,
        modified: &Vec<Result<u128, QueryMetaError>>,
        force: bool,
    ) -> (r: CopyPlan)
        requires
            modified@.len() == sources@.len(),
        ensures
            ({
                let current = current_sources(self.db_cache@, source_views(sources@), modified@, force);
                &&& r.results@.len() == current.len()
                &&& forall|i: int| 0 <= i < current.len() ==> is_up_to_date_of(#[trigger] r.results@[i], current[i])
            }),
            job_views(r.jobs@) == directory_jobs(
                texts(item.to@),
                stale_sources(self.db_cache@, source_views(sources@), modified@, force),
            ),
            texts(r.record@) == source_paths(source_views(sources@)),
    {
        let ghost cache = self.db_cache@;
        let mut results: Vec<DistributorResult> = Vec::new();
        let mut stale: Vec<SourceFile> = Vec::new();
        let mut record: Vec<String> = Vec::new();
        let mut i: usize = 0;
        while i < sources.len()
            invariant
                i <= sources@.len(),
                modified@.len() == sources@.len(),
                cache == self.db_cache@,
                source_views(stale@) == stale_sources(
                    cache,
                    source_views(sources@.take(i as int)),
                    modified@.take(i as int),
                    force,
                ),
                ({
                    let current = current_sources(
                        cache,
                        source_views(sources@.take(i as int)),
                        modified@.take(i as int),
                        force,
                    );
                    &&& results@.len() == current.len()
                    &&& forall|k: int| 0 <= k < current.len() ==> is_up_to_date_of(#[trigger] results@[k], current[k])
                }),
                texts(record@) == source_paths(source_views(sources@.take(i as int))),
            decreases sources@.len() - i,
        {
            let source = &sources[i];
            let ghost prev_sources = source_views(sources@.take(i as int));
            let ghost next_sources = source_views(sources@.take(i + 1));
            assert(next_sources.drop_last() =~= prev_sources);
            assert(modified@.take(i + 1).drop_last() =~= modified@.take(i as int));
            assert(next_sources.last() == (source.path@, source.relative@));
            assert(modified@.take(i + 1).last() == modified@[i as int]);
            let ghost prev_current = current_sources(cache, prev_sources, modified@.take(i as int), force);
            if force || self.db_cache.is_file_outdated(source.path.as_str(), &modified[i]) {
                let ghost before = stale@;
                stale.push(SourceFile { path: source.path.clone(), relative: source.relative.clone() });
                assert(source_views(stale@) =~= source_views(before).push((source.path@, source.relative@)));
            } else {
                results.push(Ok(DistributorResultType::UpToDate(source.path.clone())));
                assert(current_sources(cache, next_sources, modified@.take(i + 1), force) == prev_current.push(
                    source.path@,
                ));
                assert(is_up_to_date_of(results@[prev_current.len() as int], source.path@));
            }
            let ghost before_record = record@;
            record.push(source.path.clone());
            assert(texts(record@) =~= texts(before_record).push(source.path@));
            assert(source_paths(next_sources) =~= source_paths(prev_sources).push(source.path@));
            i = i + 1;
        }
        assert(sources@.take(sources@.len() as int) =~= sources@);
        assert(modified@.take(modified@.len() as int) =~= modified@);
        let ghost stale_view = source_views(stale@);
        let mut jobs: Vec<CopyJob> = Vec::new();
        let mut t: usize = 0;
        while t < item.to.len()
            invariant
                t <= item.to@.len(),
                source_views(stale@) == stale_view,
                job_views(jobs@) == directory_jobs(texts(item.to@).take(t as int), stale_view),
            decreases item.to@.len() - t,
        {
            let target = &item.to[t];
            let ghost outer = jobs@;
            let mut placed = Distributor::copy_by_source_to(&stale, target.as_str());
            let ghost placed_jobs = placed@;
            jobs.append(&mut placed);
            assert(job_views(jobs@) =~= job_views(outer) + job_views(placed_jobs));
            assert(texts(item.to@).take(t + 1).drop_last() =~= texts(item.to@).take(t as int));
            assert(texts(item.to@).take(t + 1).last() == target@);
            t = t + 1;
        }
        assert(texts(item.to@).take(item.to@.len() as int) =~= texts(item.to@));
        CopyPlan { results, jobs, record }
    }

    /// The copies of each source to the destination directory `to`, each
    /// placed under its path relative to the root.
    pub fn copy_by_source_to(sources: &Vec<SourceFile>, to: &str) -> (r: Vec<CopyJob>)
        ensures
            job_views(r@) == placed_under(to@, source_views(sources@)),
    {
        let ghost all = source_views(sources@);
        let mut jobs: Vec<CopyJob> = Vec::new();
        let mut j: usize = 0;
        while j < sources.len()
            invariant
                j <= sources@.len(),
                all == source_views(sources@),
                job_views(jobs@) == placed_under(to@, all.take(j as int)),
            decreases sources@.len() - j,
        {
            let source = &sources[j];
            let ghost before = jobs@;
            jobs.push(CopyJob { source: source.path.clone(), target: join_path(to, source.relative.as_str()) });
            assert(all[j as int] == (source.path@, source.relative@));
            assert forall|k: int| 0 <= k < before.len() implies #[trigger] job_views(jobs@)[k] == job_views(before)[k] by {
                assert(jobs@[k] == before[k]);
            }
            assert(job_views(jobs@).drop_last() =~= job_views(before));
            assert(all.take(j + 1).drop_last() =~= all.take(j as int));
            assert(placed_under(to@, all.take(j + 1)) =~= placed_under(to@, all.take(j as int)).push(
                (source.path@, joined_path(to@, source.relative@)),
            ));
            j = j + 1;
        }
        assert(all.take(all.len() as int) =~= all);
        jobs
    }

    /// Whether some copy of `path` among `jobs` did not succeed.
    fn copies_failed(path: &String, jobs: &Vec<CopyJob>, outcomes: &Vec<DistributorResult>) -> (r: bool)
        requires
            outcomes@.len() == jobs@.len(),
        ensures
            r == copy_failed(job_views(jobs@), outcomes@, path@),
    {
        let mut k: usize = 0;
        while k < jobs.len()
            invariant
                k <= jobs@.len(),
                outcomes@.len() == jobs@.len(),
                forall|j: int|
                    0 <= j < k ==> !((#[trigger] job_views(jobs@)[j]).0 == path@ && !copy_succeeded(outcomes@[j])),
            decreases jobs@.len() - k,
        {
            let succeeded = match &outcomes[k] {
                Ok(DistributorResultType::Copied(_, _)) => true,
                Ok(DistributorResultType::Same(_, _)) => true,
                _ => false,
            };
            if jobs[k].source == *path && !succeeded {
                assert(job_views(jobs@)[k as int].0 == path@);
                return true;
            }
            k = k + 1;
        }
        false
    }

    /// After the copies of a plan, records each of its sources, in order, with
    /// its modification time, except a source with a copy among `jobs` whose
    /// outcome (at the same position of `outcomes`) is not a success.
    pub fn record_sources(
        &mut self,
        paths: &Vec<String>,
        modified: &Vec<Result<u128, QueryMetaError>>,
        jobs: &Vec<CopyJob>,
        outcomes: &Vec<DistributorResult>,
    )
        requires
            modified@.len() == paths@.len(),
            outcomes@.len() == jobs@.len(),
        ensures
            final(self).db_cache@ == recorded_successes(
                old(self).db_cache@,
                texts(paths@),
                modified@,
                job_views(jobs@),
                outcomes@,
            ),
            final(self).db_cache.spec_loaded_path() == old(self).db_cache.spec_loaded_path(),
    {
        let ghost (jv, ov) = (job_views(jobs@), outcomes@);
        let mut i: usize = 0;
        while i < paths.len()
            invariant
                i <= paths@.len(),
                modified@.len() == paths@.len(),
                outcomes@.len() == jobs@.len(),
                jv == job_views(jobs@),
                ov == outcomes@,
                self.db_cache@ == recorded_successes(
                    old(self).db_cache@,
                    texts(paths@).take(i as int),
                    modified@.take(i as int),
                    jv,
                    ov,
                ),
                self.db_cache.spec_loaded_path() == old(self).db_cache.spec_loaded_path(),
            decreases paths@.len() - i,
        {
            if !Distributor::copies_failed(&paths[i], jobs, outcomes) {
                self.db_cache.update_file_record(paths[i].as_str(), &modified[i]);
            }
            assert(texts(paths@).take(i + 1).drop_last() =~= texts(paths@).take(i as int));
            assert(modified@.take(i + 1).drop_last() =~= modified@.take(i as int));
            assert(texts(paths@).take(i + 1).last() == paths@[i as int]@);
            i = i + 1;
        }
        assert(texts(paths@).take(paths@.len() as int) =~= texts(paths@));
        assert(modified@.take(paths@.len() as int) =~= modified@);
    }
}

} // verus!
