use distributor::distributor::{
    copy_file_to_with_default_name, CopyEvent, CopyJob, CopyPhase, CopyTask, Distributor, DistributorError,
    DistributorResultType, FileCompareError,
};
use distributor::distributor_cache_db::{FileDistributorCache, QueryMetaError};
use distributor::distributor_config::{DistributorItem, SourceFile, WalkEntry};

fn item(root: &str, to: Vec<&str>) -> DistributorItem {
    DistributorItem {
        name: "test".to_string(),
        root: root.to_string(),
        ignore: vec![],
        to: to.into_iter().map(|s| s.to_string()).collect(),
    }
}

fn source(path: &str, relative: &str) -> SourceFile {
    SourceFile { path: path.to_string(), relative: relative.to_string() }
}

fn job(source: &str, target: &str) -> CopyJob {
    CopyJob { source: source.to_string(), target: target.to_string() }
}

fn up_to_date(path: &str) -> Result<DistributorResultType, DistributorError> {
    Ok(DistributorResultType::UpToDate(path.to_string()))
}

fn fresh() -> Distributor {
    Distributor::new(FileDistributorCache::empty("cache.db"))
}

#[test]
fn directory_sources_keep_their_relative_paths() {
    let it = item("src", vec!["out"]);
    let mut walk = it.start_walk(true, Some(vec![])).unwrap();
    assert_eq!(walk.next_dir(), Some("src".to_string()));
    walk.visit(Some(vec![WalkEntry { name: "sub".to_string(), is_dir: true }]));
    assert_eq!(walk.next_dir(), Some("src/sub".to_string()));
    walk.visit(Some(vec![WalkEntry { name: "d.txt".to_string(), is_dir: false }]));
    let sources = walk.sources().clone();

    let plan = fresh().plan_directory(&it, &sources, &vec![Ok(1)], false);
    assert_eq!(plan.jobs, vec![job("src/sub/d.txt", "out/sub/d.txt")]);
}

#[test]
fn each_target_gets_every_stale_source_in_turn() {
    let it = item("src", vec!["t1", "t2"]);
    let sources = vec![source("src/a", "a"), source("src/b/c", "b/c")];
    let plan = fresh().plan_directory(&it, &sources, &vec![Ok(1), Ok(2)], false);
    assert!(plan.results.is_empty());
    assert_eq!(
        plan.jobs,
        vec![job("src/a", "t1/a"), job("src/b/c", "t1/b/c"), job("src/a", "t2/a"), job("src/b/c", "t2/b/c")]
    );
    assert_eq!(plan.record, vec!["src/a".to_string(), "src/b/c".to_string()]);
}

#[test]
fn second_run_without_changes_is_up_to_date() {
    let it = item("src", vec!["out"]);
    let sources = vec![source("src/a", "a"), source("src/b", "b")];
    let times: Vec<Result<u128, QueryMetaError>> = vec![Ok(10), Ok(20)];
    let mut d = fresh();
    let first = d.plan_directory(&it, &sources, &times, false);
    assert_eq!(first.jobs.len(), 2);
    let outcomes: Vec<Result<DistributorResultType, DistributorError>> = first
        .jobs
        .iter()
        .map(|j| Ok(DistributorResultType::Copied(j.source.clone(), j.target.clone())))
        .collect();
    d.record_sources(&first.record, &times, &first.jobs, &outcomes);

    let second = d.plan_directory(&it, &sources, &times, false);
    assert!(second.jobs.is_empty());
    assert_eq!(second.results, vec![up_to_date("src/a"), up_to_date("src/b")]);
}

#[test]
fn only_modified_sources_are_copied_again() {
    let it = item("src", vec!["out"]);
    let sources = vec![source("src/a", "a"), source("src/b", "b")];
    let mut d = fresh();
    d.record_sources(&vec!["src/a".to_string(), "src/b".to_string()], &vec![Ok(10), Ok(20)], &vec![], &vec![]);
    let plan = d.plan_directory(&it, &sources, &vec![Ok(10), Ok(21)], false);
    assert_eq!(plan.results, vec![up_to_date("src/a")]);
    assert_eq!(plan.jobs, vec![job("src/b", "out/b")]);
    assert_eq!(plan.record, vec!["src/a".to_string(), "src/b".to_string()]);
}

#[test]
fn force_attempts_every_source_and_still_records() {
    let it = item("src", vec!["out"]);
    let sources = vec![source("src/a", "a"), source("src/b", "b")];
    let times: Vec<Result<u128, QueryMetaError>> = vec![Ok(10), Ok(20)];
    let mut d = fresh();
    d.record_sources(&vec!["src/a".to_string(), "src/b".to_string()], &times, &vec![], &vec![]);
    let plan = d.plan_directory(&it, &sources, &times, true);
    assert!(plan.results.is_empty());
    assert_eq!(plan.jobs, vec![job("src/a", "out/a"), job("src/b", "out/b")]);
    assert_eq!(plan.record, vec!["src/a".to_string(), "src/b".to_string()]);
}

#[test]
fn empty_targets_copy_nothing() {
    let it = item("src", vec![]);
    let plan = fresh().plan_directory(&it, &vec![source("src/a", "a")], &vec![Ok(1)], false);
    assert!(plan.jobs.is_empty());
    assert_eq!(plan.record, vec!["src/a".to_string()]);
}

#[test]
fn single_file_goes_into_directories_under_its_name() {
    let it = item("resource/template.txt", vec!["dir", "file.txt"]);
    let plan = fresh().plan_single_file(&it, false, &Ok(5), &vec![true, false]);
    assert!(plan.results.is_empty());
    assert_eq!(
        plan.jobs,
        vec![job("resource/template.txt", "dir/template.txt"), job("resource/template.txt", "file.txt")]
    );
    assert_eq!(plan.record, vec!["resource/template.txt".to_string()]);
}

#[test]
fn current_single_file_is_up_to_date_unless_forced() {
    let it = item("a.txt", vec!["out"]);
    let mut d = fresh();
    d.record_sources(&vec!["a.txt".to_string()], &vec![Ok(9)], &vec![], &vec![]);
    let plan = d.plan_single_file(&it, false, &Ok(9), &vec![true]);
    assert_eq!(plan.results, vec![up_to_date("a.txt")]);
    assert!(plan.jobs.is_empty());
    assert!(plan.record.is_empty());
    let forced = d.plan_single_file(&it, true, &Ok(9), &vec![true]);
    assert_eq!(forced.jobs, vec![job("a.txt", "out/a.txt")]);
}

#[test]
fn single_file_without_a_name_is_an_error() {
    let it = item("..", vec!["out"]);
    let plan = fresh().plan_single_file(&it, false, &Ok(1), &vec![true]);
    assert_eq!(plan.results, vec![Err(DistributorError::IoError("file name is invalid.".to_string()))]);
    assert!(plan.jobs.is_empty());
}

#[test]
fn default_name_is_used_only_inside_a_directory() {
    assert_eq!(copy_file_to_with_default_name("a/t.txt", "out", "t.txt", true), job("a/t.txt", "out/t.txt"));
    assert_eq!(copy_file_to_with_default_name("a/t.txt", "out", "t.txt", false), job("a/t.txt", "out"));
}

#[test]
fn clearing_the_cache_makes_everything_stale() {
    let mut d = fresh();
    d.record_sources(&vec!["a".to_string()], &vec![Ok(1)], &vec![], &vec![]);
    assert!(d.should_save());
    d.clear_cache();
    assert!(!d.should_save());
    assert!(d.db_cache.is_file_outdated("a", &Ok(1)));
}

fn blocks(a: &[u8], b: &[u8]) -> CopyEvent {
    CopyEvent::Blocks(a.to_vec(), b.to_vec())
}

fn task(target_is_file: bool) -> CopyTask {
    CopyTask::new(job("s", "t"), target_is_file)
}

#[test]
fn identical_destination_is_reported_same_without_writing() {
    let t = task(true);
    assert_eq!(t.phase, CopyPhase::Comparing);
    let t = t.advance(blocks(b"hello ", b"hello ")).unwrap();
    assert_eq!(t.phase, CopyPhase::Comparing);
    let t = t.advance(blocks(b"world", b"world")).unwrap();
    let outcome = t.advance(blocks(b"", b"")).unwrap_err();
    assert_eq!(outcome, Ok(DistributorResultType::Same("s".to_string(), "t".to_string())));
}

#[test]
fn test_compare_file() {
    // Different contents end the comparison and lead to a write.
    let t = task(true).advance(blocks(b"template a", b"template b")).unwrap();
    assert_eq!(t.phase, CopyPhase::Writing);
    // Identical contents end with the same content reported.
    let t = task(true).advance(blocks(b"template a", b"template a")).unwrap();
    let outcome = t.advance(blocks(b"", b"")).unwrap_err();
    assert_eq!(outcome, Ok(DistributorResultType::Same("s".to_string(), "t".to_string())));
}

#[test]
fn differing_lengths_lead_to_a_write() {
    let t = task(true).advance(blocks(b"abc", b"ab")).unwrap();
    assert_eq!(t.phase, CopyPhase::Writing);
    let t = task(true).advance(blocks(b"", b"x")).unwrap();
    assert_eq!(t.phase, CopyPhase::Writing);
}

#[test]
fn written_copy_is_reported_copied() {
    let t = task(false);
    assert_eq!(t.phase, CopyPhase::Writing);
    let outcome = t.advance(CopyEvent::Written).unwrap_err();
    assert_eq!(outcome, Ok(DistributorResultType::Copied("s".to_string(), "t".to_string())));
}

#[test]
fn failed_comparison_falls_back_to_writing() {
    let t = task(true).advance(CopyEvent::CompareFailed(FileCompareError::IoError("denied".to_string()))).unwrap();
    assert_eq!(t.phase, CopyPhase::Writing);
}

#[test]
fn failed_write_is_reported_as_an_error() {
    let err = DistributorError::IoError("read-only".to_string());
    let outcome = task(false).advance(CopyEvent::WriteFailed(err.clone())).unwrap_err();
    assert_eq!(outcome, Err(err));
}

#[test]
fn an_event_out_of_turn_changes_nothing() {
    let t = task(true).advance(CopyEvent::Written).unwrap();
    assert_eq!(t.phase, CopyPhase::Comparing);
    let t = task(false).advance(blocks(b"a", b"a")).unwrap();
    assert_eq!(t.phase, CopyPhase::Writing);
}

#[test]
fn joining_follows_path_rules() {
    // A destination ending in a separator gets no second one.
    assert_eq!(copy_file_to_with_default_name("a/t.txt", "out/", "t.txt", true), job("a/t.txt", "out/t.txt"));
    // An absolute relative part replaces the destination.
    let plan = Distributor::copy_by_source_to(&vec![source("/abs/x", "/abs/x")], "out");
    assert_eq!(plan, vec![job("/abs/x", "/abs/x")]);
}

#[test]
fn saved_cache_encodes_without_failure() {
    let mut d = fresh();
    d.record_sources(&vec!["a".to_string()], &vec![Ok(3)], &vec![], &vec![]);
    let bytes = d.db_cache.to_bytes();
    assert!(bytes.is_some());
    let loaded = FileDistributorCache::from_bytes(&bytes.unwrap(), "cache.db");
    assert_eq!(loaded.get_file_record("a"), Some(3));
}

#[test]
fn a_source_whose_copy_failed_stays_stale() {
    let it = item("src", vec!["t1", "t2"]);
    let sources = vec![source("src/a", "a"), source("src/b", "b")];
    let times: Vec<Result<u128, QueryMetaError>> = vec![Ok(10), Ok(20)];
    let mut d = fresh();
    let plan = d.plan_directory(&it, &sources, &times, false);
    assert_eq!(plan.jobs.len(), 4);
    // The copy of src/b to t2 fails; every other copy succeeds.
    let outcomes: Vec<Result<DistributorResultType, DistributorError>> = plan
        .jobs
        .iter()
        .map(|j| {
            if j.source == "src/b" && j.target == "t2/b" {
                Err(DistributorError::IoError("disk full".to_string()))
            } else {
                Ok(DistributorResultType::Same(j.source.clone(), j.target.clone()))
            }
        })
        .collect();
    d.record_sources(&plan.record, &times, &plan.jobs, &outcomes);
    assert_eq!(d.db_cache.get_file_record("src/a"), Some(10));
    assert_eq!(d.db_cache.get_file_record("src/b"), None);

    let again = d.plan_directory(&it, &sources, &times, false);
    assert_eq!(again.results, vec![up_to_date("src/a")]);
    assert_eq!(again.jobs, vec![job("src/b", "t1/b"), job("src/b", "t2/b")]);
}

#[test]
fn a_failed_copy_keeps_the_old_record() {
    let it = item("f.txt", vec!["out"]);
    let mut d = fresh();
    d.record_sources(&vec!["f.txt".to_string()], &vec![Ok(5)], &vec![], &vec![]);
    let plan = d.plan_single_file(&it, false, &Ok(6), &vec![true]);
    let outcomes = vec![Err(DistributorError::IoError("denied".to_string()))];
    d.record_sources(&plan.record, &vec![Ok(6)], &plan.jobs, &outcomes);
    assert_eq!(d.db_cache.get_file_record("f.txt"), Some(5));
    assert!(d.db_cache.is_file_outdated("f.txt", &Ok(6)));
}
