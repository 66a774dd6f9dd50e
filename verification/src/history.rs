use vstd::prelude::*;

use crate::date::Day;
use crate::model::{Counts, count_at};
use crate::store::Store;

verus! {

/// The default window length of a history read, in days.
pub const WINDOW_DAYS: u64 = 90;

/// One day of history: the day and the count recorded for it.
#[derive(Clone, Copy, PartialEq, Eq, Structural, Debug)]
pub struct DownloadEntry {
    pub day: Day,
    pub count: u64,
}

/// The error a history read propagates when the store cannot serve it.
#[derive(Clone, Copy, PartialEq, Eq, Structural, Debug)]
pub enum HistoryError {
    StoreUnavailable,
}

/// The gap-filled series over the `window` days ending at `end`: exactly one
/// entry per calendar day, strictly ascending, with the count the store
/// holds for that day (zero when no row exists).
pub open spec fn is_full_history(
    m: Counts,
    key: Seq<char>,
    end: int,
    window: nat,
    v: Seq<DownloadEntry>,
) -> bool {
    &&& v.len() == window
    &&& forall|j: int| 0 <= j < window ==> (#[trigger] v[j]).day.num == end - (window - 1) + j
    &&& forall|j: int|
        0 <= j < window ==> (#[trigger] v[j]).count == count_at(m, key, end - (window - 1) + j)
    &&& forall|a: int, b: int|
        0 <= a < b < window ==> (#[trigger] v[a]).day.num < (#[trigger] v[b]).day.num
}

/// The entry a history read produces for `day`.
pub open spec fn history_entry(m: Counts, key: Seq<char>, day: int) -> DownloadEntry {
    DownloadEntry { day: Day { num: day as u64 }, count: count_at(m, key, day) as u64 }
}

/// The rows the store actually holds for `key` among the `n` days starting
/// at `first`, in ascending day order and without synthesized entries.
pub open spec fn sparse_history(m: Counts, key: Seq<char>, first: int, n: nat) -> Seq<
    DownloadEntry,
>
    decreases n,
{
    if n == 0 {
        Seq::empty()
    } else if m.dom().contains((key, first)) {
        seq![history_entry(m, key, first)] + sparse_history(m, key, first + 1, (n - 1) as nat)
    } else {
        sparse_history(m, key, first + 1, (n - 1) as nat)
    }
}

proof fn lemma_sparse_history_snoc(m: Counts, key: Seq<char>, first: int, n: nat)
    ensures
        sparse_history(m, key, first, n + 1) == sparse_history(m, key, first, n) + (if m.dom(
        ).contains((key, first + n)) {
            seq![history_entry(m, key, first + n)]
        } else {
            Seq::<DownloadEntry>::empty()
        }),
    decreases n,
{
    let tail = if m.dom().contains((key, first + n)) {
        seq![history_entry(m, key, first + n)]
    } else {
        Seq::<DownloadEntry>::empty()
    };
    if n == 0 {
        assert(sparse_history(m, key, first + 1, 0) == Seq::<DownloadEntry>::empty());
        assert(sparse_history(m, key, first, 0) == Seq::<DownloadEntry>::empty());
        assert(sparse_history(m, key, first, 1) =~= sparse_history(m, key, first, 0) + tail);
    } else {
        lemma_sparse_history_snoc(m, key, first + 1, (n - 1) as nat);
        assert(sparse_history(m, key, first, n + 1) =~= sparse_history(m, key, first, n) + tail);
    }
}

/// The sparse series is exactly the persisted rows of its range, ascending:
/// every entry is a day of [first, first + n) that has a row, carrying that
/// row's count; the days grow strictly; and every day of the range that has
/// a row appears.
pub proof fn lemma_sparse_history_exact(m: Counts, key: Seq<char>, first: int, n: nat)
    requires
        0 <= first,
        first + n <= u64::MAX,
        forall|d: int| first <= d < first + n ==> #[trigger] count_at(m, key, d) <= u64::MAX,
    ensures
        forall|t: int|
            0 <= t < sparse_history(m, key, first, n).len() ==> {
                let e = #[trigger] sparse_history(m, key, first, n)[t];
                &&& first <= e.day.num < first + n
                &&& m.dom().contains((key, e.day.num as int))
                &&& e.count == count_at(m, key, e.day.num as int)
            },
        forall|a: int, b: int|
            0 <= a < b < sparse_history(m, key, first, n).len() ==> (#[trigger] sparse_history(
                m,
                key,
                first,
                n,
            )[a]).day.num < (#[trigger] sparse_history(m, key, first, n)[b]).day.num,
        forall|d: int|
            first <= d < first + n && #[trigger] m.dom().contains((key, d)) ==> exists|t: int|
                0 <= t < sparse_history(m, key, first, n).len() && (#[trigger] sparse_history(
                    m,
                    key,
                    first,
                    n,
                )[t]).day.num == d,
    decreases n,
{
    if n > 0 {
        lemma_sparse_history_exact(m, key, first + 1, (n - 1) as nat);
        let s = sparse_history(m, key, first, n);
        let rest = sparse_history(m, key, first + 1, (n - 1) as nat);
        if m.dom().contains((key, first)) {
            assert(s == seq![history_entry(m, key, first)] + rest);
            assert(s[0] == history_entry(m, key, first));
            assert forall|t: int| 1 <= t < s.len() implies s[t] == rest[t - 1] by {}
            assert forall|d: int|
                first <= d < first + n && #[trigger] m.dom().contains(
                    (key, d),
                ) implies exists|t: int| 0 <= t < s.len() && (#[trigger] s[t]).day.num == d by {
                if d == first {
                    assert(s[0].day.num == d);
                } else {
                    let t = choose|t: int| 0 <= t < rest.len() && (#[trigger] rest[t]).day.num
                        == d;
                    assert(s[t + 1].day.num == d);
                }
            }
        } else {
            assert(s == rest);
            assert forall|d: int|
                first <= d < first + n && #[trigger] m.dom().contains(
                    (key, d),
                ) implies exists|t: int| 0 <= t < s.len() && (#[trigger] s[t]).day.num == d by {
                let t = choose|t: int| 0 <= t < rest.len() && (#[trigger] rest[t]).day.num == d;
                assert(s[t].day.num == d);
            }
        }
    }
}

impl Store {
    /// The read path: the ordered (day, count) series for `key` over the
    /// `window` days ending at `end_date`.
    ///
    /// With `fill_gaps` set, the result holds exactly one entry per calendar
    /// day of the window, strictly ascending, with count 0 for days without
    /// a row; otherwise it holds exactly the persisted rows of the window,
    /// still ascending. Unlike the write path, a failing store propagates as
    /// an error: this read is its caller's primary operation.
    pub fn fetch_history_window(
        &self,
        key: &str,
        end_date: Day,
        window: u64,
        fill_gaps: bool,
    ) -> (r: Result<Vec<DownloadEntry>, HistoryError>)
        requires
            self.wf(),
            window >= 1,
            end_date.num >= window - 1,
        ensures
            r is Ok <==> self.is_online(),
            match r {
                Ok(v) => {
                    &&& fill_gaps ==> is_full_history(
                        self.counts(),
                        key@,
                        end_date.num as int,
                        window as nat,
                        v@,
                    )
                    &&& !fill_gaps ==> v@ == sparse_history(
                        self.counts(),
                        key@,
                        end_date.num - (window - 1),
                        window as nat,
                    )
                },
                Err(e) => e == HistoryError::StoreUnavailable,
            },
    {
        if !self.available() {
            return Err(HistoryError::StoreUnavailable);
        }
        let owned: String = key.to_owned();
        let start: u64 = end_date.minus_days(window - 1).num;
        let mut v: Vec<DownloadEntry> = Vec::new();
        let mut j: u64 = 0;
        while j < window
            invariant
                self.wf(),
                owned@ == key@,
                j <= window,
                start == end_date.num - (window - 1),
                fill_gaps ==> v@.len() == j,
                fill_gaps ==> forall|t: int|
                    0 <= t < j ==> (#[trigger] v@[t]).day.num == start + t,
                fill_gaps ==> forall|t: int|
                    0 <= t < j ==> (#[trigger] v@[t]).count == count_at(
                        self.counts(),
                        key@,
                        start + t,
                    ),
                !fill_gaps ==> v@ == sparse_history(
                    self.counts(),
                    key@,
                    start as int,
                    j as nat,
                ),
            decreases window - j,
        {
            let day = Day { num: start + j };
            let counted = self.lookup(&owned, day);
            proof {
                if !fill_gaps {
                    lemma_sparse_history_snoc(self.counts(), key@, start as int, j as nat);
                }
            }
            match counted {
                Some(c) => {
                    v.push(DownloadEntry { day, count: c });
                    proof {
                        if !fill_gaps {
                            assert(v@ =~= sparse_history(
                                self.counts(),
                                key@,
                                start as int,
                                (j + 1) as nat,
                            ));
                        }
                    }
                },
                None => {
                    if fill_gaps {
                        v.push(DownloadEntry { day, count: 0 });
                    }
                },
            }
            j += 1;
        }
        Ok(v)
    }

    /// `fetch_history_window` over the default window of `WINDOW_DAYS` days.
    pub fn fetch_history(&self, key: &str, end_date: Day, fill_gaps: bool) -> (r: Result<
        Vec<DownloadEntry>,
        HistoryError,
    >)
        requires
            self.wf(),
            end_date.num >= WINDOW_DAYS - 1,
        ensures
            r is Ok <==> self.is_online(),
            match r {
                Ok(v) => {
                    &&& fill_gaps ==> is_full_history(
                        self.counts(),
                        key@,
                        end_date.num as int,
                        WINDOW_DAYS as nat,
                        v@,
                    )
                    &&& !fill_gaps ==> v@ == sparse_history(
                        self.counts(),
                        key@,
                        end_date.num - (WINDOW_DAYS - 1),
                        WINDOW_DAYS as nat,
                    )
                },
                Err(e) => e == HistoryError::StoreUnavailable,
            },
    {
        self.fetch_history_window(key, end_date, WINDOW_DAYS, fill_gaps)
    }
}

/// A history read has no side effect and its result is a function of the
/// store's content alone: two reads of the same key and the same window, in
/// the same mode and with no recording between them, return identical
/// series.
pub proof fn lemma_history_read_idempotent(
    m: Counts,
    key: Seq<char>,
    end: int,
    window: nat,
    fill_gaps: bool,
    v1: Seq<DownloadEntry>,
    v2: Seq<DownloadEntry>,
)
    requires
        fill_gaps ==> is_full_history(m, key, end, window, v1) && is_full_history(
            m,
            key,
            end,
            window,
            v2,
        ),
        !fill_gaps ==> v1 == sparse_history(m, key, end - (window - 1), window) && v2
            == sparse_history(m, key, end - (window - 1), window),
    ensures
        v1 == v2,
{
    if fill_gaps {
        assert forall|j: int| 0 <= j < window implies v1[j] == v2[j] by {
            assert(v1[j].day.num == v2[j].day.num);
            assert(v1[j].count == v2[j].count);
        }
        assert(v1 =~= v2);
    }
}

} // verus!
