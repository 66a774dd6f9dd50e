use chrono::{Datelike, Duration, NaiveDate};
use download_counts::history::WINDOW_DAYS;
use download_counts::routes::{download, downloads};
use download_counts::{Day, DownloadEntry, HistoryError, Store};

fn day_of(y: i32, m: u32, d: u32) -> Day {
    let nd = NaiveDate::from_ymd_opt(y, m, d).unwrap();
    Day {
        num: nd.num_days_from_ce() as u64,
    }
}

fn date_of(day: Day) -> NaiveDate {
    NaiveDate::from_num_days_from_ce_opt(day.num as i32).unwrap()
}

fn full_window(store: &Store, key: &str, end: Day) -> Vec<DownloadEntry> {
    store.fetch_history(key, end, true).unwrap()
}

#[test]
fn counts_accumulate_over_repeated_records() {
    for n in [1u64, 2, 10, 100] {
        let mut store = Store::new();
        let day = day_of(2024, 1, 10);
        for _ in 0..n {
            assert!(store.record_download("serde-1.0.0", day));
        }
        let window = full_window(&store, "serde-1.0.0", day);
        assert_eq!(window.last().unwrap().count, n);
    }
}

#[test]
fn record_reports_failure_without_erroring() {
    let mut store = Store::new();
    store.set_online(false);
    let counted = store.record_download("serde-1.0.0", day_of(2024, 1, 10));
    assert!(!counted);
    store.set_online(true);
    let window = full_window(&store, "serde-1.0.0", day_of(2024, 1, 10));
    assert!(window.iter().all(|e| e.count == 0));
}

#[test]
fn full_window_is_gap_free_ascending_and_spans_the_range() {
    let mut store = Store::new();
    let end = day_of(2024, 3, 1);

    // no rows at all: all zeros
    let empty = full_window(&store, "rand-0.8.5", end);
    assert_eq!(empty.len(), WINDOW_DAYS as usize);
    assert!(empty.iter().all(|e| e.count == 0));

    // a few scattered rows: reproduced verbatim, zeros elsewhere
    assert!(store.record_download("rand-0.8.5", day_of(2024, 2, 5)));
    assert!(store.record_download("rand-0.8.5", day_of(2024, 2, 5)));
    assert!(store.record_download("rand-0.8.5", day_of(2024, 3, 1)));
    let window = full_window(&store, "rand-0.8.5", end);
    assert_eq!(window.len(), WINDOW_DAYS as usize);
    assert_eq!(window[0].day, Day { num: end.num - (WINDOW_DAYS - 1) });
    for (i, e) in window.iter().enumerate() {
        assert_eq!(e.day.num, window[0].day.num + i as u64);
        let expected = if e.day == day_of(2024, 2, 5) {
            2
        } else if e.day == day_of(2024, 3, 1) {
            1
        } else {
            0
        };
        assert_eq!(e.count, expected);
    }
    for pair in window.windows(2) {
        assert!(pair[0].day.num < pair[1].day.num);
    }
}

#[test]
fn repeated_reads_return_identical_results() {
    let mut store = Store::new();
    let end = day_of(2024, 3, 1);
    assert!(store.record_download("serde-1.0.0", day_of(2024, 1, 20)));
    assert!(store.record_download("serde-1.0.0", day_of(2024, 2, 28)));
    let first = store.fetch_history("serde-1.0.0", end, true).unwrap();
    let second = store.fetch_history("serde-1.0.0", end, true).unwrap();
    assert_eq!(first, second);
    let sparse_first = store.fetch_history("serde-1.0.0", end, false).unwrap();
    let sparse_second = store.fetch_history("serde-1.0.0", end, false).unwrap();
    assert_eq!(sparse_first, sparse_second);
}

#[test]
fn earliest_representable_window_is_zero_filled_around_one_row() {
    let mut store = Store::new();
    // the earliest end date whose full window is still representable
    let end = Day { num: WINDOW_DAYS - 1 };
    assert!(store.record_download("libc-0.2.0", end));
    let window = full_window(&store, "libc-0.2.0", end);
    assert_eq!(window.len(), WINDOW_DAYS as usize);
    assert_eq!(window[0].day, Day { num: 0 });
    assert_eq!(window.last().unwrap(), &DownloadEntry { day: end, count: 1 });
    for e in &window[..WINDOW_DAYS as usize - 1] {
        assert_eq!(e.count, 0);
    }
}

#[test]
fn three_records_yield_a_window_ending_with_count_three() {
    let mut store = Store::new();
    let day = day_of(2024, 1, 10);
    for _ in 0..3 {
        assert!(store.record_download("K", day));
    }
    let window = full_window(&store, "K", day);
    assert_eq!(window.len(), 90);
    assert_eq!(
        window.last().unwrap(),
        &DownloadEntry { day, count: 3 }
    );
    assert_eq!(date_of(window.last().unwrap().day), NaiveDate::from_ymd_opt(2024, 1, 10).unwrap());
    assert_eq!(
        date_of(window[0].day),
        NaiveDate::from_ymd_opt(2024, 1, 10).unwrap() - Duration::days(89)
    );
    for e in &window[..89] {
        assert_eq!(e.count, 0);
    }
}

#[test]
fn failed_record_leaves_no_residue() {
    let mut store = Store::new();
    let day = day_of(2024, 1, 10);
    store.set_online(false);
    assert!(!store.record_download("K", day));
    store.set_online(true);
    assert!(store.record_download("K", day));
    let window = full_window(&store, "K", day);
    assert_eq!(window.last().unwrap().count, 1);
}

#[test]
fn try_record_behaves_like_record_for_ordinary_counters() {
    let mut store = Store::new();
    let day = day_of(2024, 1, 10);
    assert!(store.try_record_download("K", day));
    store.set_online(false);
    assert!(!store.try_record_download("K", day));
    store.set_online(true);
    let window = full_window(&store, "K", day);
    assert_eq!(window.last().unwrap().count, 1);
}

#[test]
fn sparse_mode_returns_only_persisted_rows_ascending() {
    let mut store = Store::new();
    let end = day_of(2024, 3, 1);
    assert!(store.record_download("serde-1.0.0", day_of(2024, 2, 20)));
    assert!(store.record_download("serde-1.0.0", day_of(2024, 1, 15)));
    assert!(store.record_download("serde-1.0.0", day_of(2024, 2, 20)));
    // a different key and a day outside the window stay invisible
    assert!(store.record_download("rand-0.8.5", day_of(2024, 2, 20)));
    assert!(store.record_download("serde-1.0.0", day_of(2023, 11, 1)));
    let rows = store.fetch_history("serde-1.0.0", end, false).unwrap();
    assert_eq!(
        rows,
        vec![
            DownloadEntry { day: day_of(2024, 1, 15), count: 1 },
            DownloadEntry { day: day_of(2024, 2, 20), count: 2 },
        ]
    );
}

#[test]
fn offline_read_propagates_the_error() {
    let mut store = Store::new();
    store.set_online(false);
    let res = store.fetch_history("serde-1.0.0", day_of(2024, 1, 10), true);
    assert_eq!(res, Err(HistoryError::StoreUnavailable));
}

#[test]
fn route_fns_delegate_to_recorder_and_reader() {
    let mut store = Store::new();
    let day = day_of(2024, 1, 10);
    assert!(download(&mut store, "K", day));
    store.set_online(false);
    assert!(!download(&mut store, "K", day));
    store.set_online(true);
    let window = downloads(&store, "K", day, true).unwrap();
    assert_eq!(window.len(), WINDOW_DAYS as usize);
    assert_eq!(window.last().unwrap(), &DownloadEntry { day, count: 1 });
}

#[test]
fn minus_days_steps_back_within_the_calendar() {
    let day = day_of(2024, 1, 10);
    let earlier = day.minus_days(89);
    assert_eq!(date_of(earlier), NaiveDate::from_ymd_opt(2023, 10, 13).unwrap());
}
