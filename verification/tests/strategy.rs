//! Sizes and strategies.

use cp2::strategy::{
    classify_file_size, determine_strategy, optimal_thread_count, thread_count, FileClass,
    TransferStrategy, DELTA_MIN_SIZE, MEDIUM_FILE_MAX, SMALL_FILE_MAX,
};

#[test]
fn strategy_copy_below_delta_min() {
    assert_eq!(determine_strategy(0, true), TransferStrategy::Copy);
    assert_eq!(determine_strategy(DELTA_MIN_SIZE, true), TransferStrategy::Copy);
}

#[test]
fn strategy_delta_above_delta_min_with_dest() {
    assert_eq!(
        determine_strategy(DELTA_MIN_SIZE + 1, true),
        TransferStrategy::Delta
    );
}

#[test]
fn strategy_copy_for_small() {
    assert_eq!(determine_strategy(100, true), TransferStrategy::Copy);
    assert_eq!(determine_strategy(100, false), TransferStrategy::Copy);
}

#[test]
fn strategy_delta_for_large_with_dest() {
    assert_eq!(
        determine_strategy(50 * 1024 * 1024, true),
        TransferStrategy::Delta
    );
}

#[test]
fn strategy_copy_for_large_without_dest() {
    assert_eq!(
        determine_strategy(50 * 1024 * 1024, false),
        TransferStrategy::Copy
    );
}

#[test]
fn strategy_copy_for_extra_large_without_dest() {
    assert_eq!(
        determine_strategy(500 * 1024 * 1024, false),
        TransferStrategy::Copy
    );
}

#[test]
fn classify_size_small() {
    assert_eq!(classify_file_size(0), FileClass::Small);
    assert_eq!(classify_file_size(SMALL_FILE_MAX), FileClass::Small);
}

#[test]
fn classify_size_medium() {
    assert_eq!(classify_file_size(SMALL_FILE_MAX + 1), FileClass::Medium);
    assert_eq!(classify_file_size(MEDIUM_FILE_MAX), FileClass::Medium);
}

#[test]
fn classify_size_large() {
    assert_eq!(classify_file_size(MEDIUM_FILE_MAX + 1), FileClass::Large);
}

#[test]
fn network_runs_use_fewer_threads() {
    assert!(thread_count(64, true) <= thread_count(64, false));
    assert!(thread_count(1, true) >= 1);
}

#[test]
fn the_machine_has_threads() {
    assert!(optimal_thread_count(true) >= 1);
    assert!(optimal_thread_count(false) >= 1);
}
