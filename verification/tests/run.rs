use ekko::batch_run::{batch_slice_bounds, BatchOutcome, BatchProgress, BatchRun, BatchStep};
use ekko::cli::{parse_command, summarize_run, Command, RunSummary};
use ekko::shutdown::{
    get_current_chunk_index, is_shutdown_requested, request_shutdown, update_current_chunk_index,
    ShutdownState,
};

#[test]
fn slice_bounds_are_cut_at_the_list_end() {
    assert_eq!(batch_slice_bounds(0, 10, 25), (0, 10));
    assert_eq!(batch_slice_bounds(20, 10, 25), (20, 25));
    let (a, b) = batch_slice_bounds(30, 10, 25);
    assert_eq!(a, b);
}

#[test]
fn run_reports_progress_per_batch() {
    let mut run = BatchRun::new(vec![(0, 4), (4, 4), (8, 2)], 10, false);
    assert_eq!(run.next_range(false), Some((0, 4)));
    assert_eq!(
        run.finish_batch(BatchOutcome::Completed, 4),
        BatchStep::Progress(BatchProgress {
            batch_index: 1,
            total_batches: 3,
            chunks_in_batch: 4,
            chunks_completed: 4,
            total_chunks: 10,
        })
    );
    assert_eq!(run.next_range(true), None);
    assert_eq!(run.next_range(false), Some((4, 4)));
    assert_eq!(run.finish_batch(BatchOutcome::Panicked, 0), BatchStep::Failed { start_index: 4 });
    assert_eq!(run.finish_batch(BatchOutcome::Interrupted, 0), BatchStep::Stop);
    assert_eq!(run.total_chunks_processed, 4);
    assert!(!run.is_exhausted());
}

#[test]
fn whole_range_runs_count_the_ranges() {
    let mut run = BatchRun::new(vec![(10, 5)], 15, true);
    assert_eq!(
        run.finish_batch(BatchOutcome::Completed, 0),
        BatchStep::Progress(BatchProgress {
            batch_index: 1,
            total_batches: 1,
            chunks_in_batch: 5,
            chunks_completed: 15,
            total_chunks: 15,
        })
    );
    assert!(run.is_exhausted());
    assert_eq!(run.next_range(false), None);
}

#[test]
fn shutdown_keeps_the_last_index() {
    let mut state = ShutdownState::new();
    assert!(!is_shutdown_requested(&state));
    update_current_chunk_index(&mut state, 1200);
    request_shutdown(&mut state);
    assert!(is_shutdown_requested(&state));
    assert_eq!(get_current_chunk_index(&state), 1200);
    update_current_chunk_index(&mut state, 1300);
    assert!(is_shutdown_requested(&state));
    assert_eq!(get_current_chunk_index(&state), 1300);
}

#[test]
fn commands_from_the_first_argument() {
    assert_eq!(parse_command(None), Command::Generate);
    assert_eq!(parse_command(Some("accuracy_test")), Command::AccuracyTest);
    assert_eq!(parse_command(Some("parallel_test")), Command::ParallelTest);
    assert_eq!(parse_command(Some("storage_test")), Command::StorageTest);
    assert_eq!(parse_command(Some("radius_test")), Command::RadiusTest);
    assert_eq!(parse_command(Some("test")), Command::AllTests);
    assert_eq!(parse_command(Some("help")), Command::Help);
    assert_eq!(parse_command(Some("--help")), Command::Help);
    assert_eq!(parse_command(Some("-h")), Command::Help);
    assert_eq!(parse_command(Some("HELP")), Command::Unknown("HELP".to_string()));
}

#[test]
fn run_summaries() {
    assert_eq!(summarize_run(Ok(()), false, 50, 10), RunSummary::Completed);
    assert_eq!(
        summarize_run(Ok(()), true, 50, 10),
        RunSummary::Stopped { processed: 40, resume_index: 50 }
    );
    assert_eq!(
        summarize_run(Err(30), false, 50, 10),
        RunSummary::Failed { failed_at: 30, completed: 20 }
    );
}
