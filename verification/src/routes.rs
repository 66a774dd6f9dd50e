use vstd::prelude::*;

use crate::date::Day;
use crate::history::{DownloadEntry, HistoryError, WINDOW_DAYS, is_full_history, sparse_history};
use crate::model::{bump, count_at};
use crate::store::Store;

verus! {

/// The compute core of the download route. The caller has already resolved
/// the human-facing (name, version) pair to `key` and knows the current
/// day; this records the event in its own isolated store operation. The
/// returned flag says whether the download was counted: a failing store
/// yields `false` without an error, so the caller's primary work (handing
/// out the download) always goes on.
pub fn download(store: &mut Store, key: &str, day: Day) -> (counted: bool)
    requires
        old(store).wf(),
    ensures
        final(store).wf(),
        final(store).is_online() == old(store).is_online(),
        counted == (old(store).is_online() && count_at(
            old(store).counts(),
            key@,
            day.num as int,
        ) < u64::MAX),
        counted ==> final(store).counts() == bump(old(store).counts(), key@, day.num as int),
        !counted ==> final(store).counts() == old(store).counts(),
{
    store.try_record_download(key, day)
}

/// The compute core of the downloads route: the trailing `WINDOW_DAYS`-day
/// (day, count) series for the resolved key, ending at `end_date` (the
/// caller defaults it to today when no earlier cutoff was asked for).
/// A failing store propagates as an error here: this read is the caller's
/// primary operation.
pub fn downloads(store: &Store, key: &str, end_date: Day, fill_gaps: bool) -> (r: Result<
    Vec<DownloadEntry>,
    HistoryError,
>)
    requires
        store.wf(),
        end_date.num >= WINDOW_DAYS - 1,
    ensures
        r is Ok <==> store.is_online(),
        match r {
            Ok(v) => {
                &&& fill_gaps ==> is_full_history(
                    store.counts(),
                    key@,
                    end_date.num as int,
                    WINDOW_DAYS as nat,
                    v@,
                )
                &&& !fill_gaps ==> v@ == sparse_history(
                    store.counts(),
                    key@,
                    end_date.num - (WINDOW_DAYS - 1),
                    WINDOW_DAYS as nat,
                )
            },
            Err(e) => e == HistoryError::StoreUnavailable,
        },
{
    store.fetch_history(key, end_date, fill_gaps)
}

} // verus!
