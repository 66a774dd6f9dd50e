use vstd::prelude::*;

use crate::date::Day;
use crate::model::{Counts, count_at, bump};

verus! {

/// One persisted counter row: the downloads recorded for `key` on `day`.
pub struct CounterRow {
    pub key: String,
    pub day: Day,
    pub count: u64,
}

/// The backing store: the persisted counter rows plus an availability flag.
/// The flag models every store failure alike (connection outage, read-only
/// mode, timeout): while it is false, every operation fails.
pub struct Store {
    rows: Vec<CounterRow>,
    online: bool,
}

impl Store {
    /// Whether the store can currently serve requests.
    pub closed spec fn is_online(self) -> bool {
        self.online
    }

    spec fn row_matches(self, i: int, key: Seq<char>, day: int) -> bool {
        &&& self.rows[i].key@ == key
        &&& self.rows[i].day.num == day
    }

    spec fn same_pair(self, i: int, j: int) -> bool {
        &&& self.rows[i].key@ == self.rows[j].key@
        &&& self.rows[i].day.num == self.rows[j].day.num
    }

    /// At most one row exists per (key, day), and every persisted count is at
    /// least 1: a row is created by the first recorded event with count 1 and
    /// afterwards only ever incremented.
    pub closed spec fn wf(self) -> bool {
        &&& forall|i: int, j: int|
            0 <= i < j < self.rows.len() ==> !(#[trigger] self.same_pair(i, j))
        &&& forall|i: int| 0 <= i < self.rows.len() ==> (#[trigger] self.rows[i]).count >= 1
    }

    spec fn has_row(self, key: Seq<char>, day: int) -> bool {
        exists|i: int| 0 <= i < self.rows.len() && self.row_matches(i, key, day)
    }

    spec fn index_of(self, key: Seq<char>, day: int) -> int {
        choose|i: int| 0 <= i < self.rows.len() && self.row_matches(i, key, day)
    }

    /// The store's abstract content.
    pub closed spec fn counts(self) -> Counts {
        Map::new(
            |p: (Seq<char>, int)| self.has_row(p.0, p.1),
            |p: (Seq<char>, int)| self.rows[self.index_of(p.0, p.1)].count as nat,
        )
    }

    proof fn lemma_counts_at(self, key: Seq<char>, day: int, i: int)
        requires
            self.wf(),
            0 <= i < self.rows.len(),
            self.row_matches(i, key, day),
        ensures
            self.counts().dom().contains((key, day)),
            self.counts()[(key, day)] == self.rows[i].count as nat,
            count_at(self.counts(), key, day) == self.rows[i].count as nat,
    {
        assert(self.has_row(key, day));
        let j = self.index_of(key, day);
        if j != i {
            if i < j {
                assert(self.same_pair(i, j));
            } else {
                assert(self.same_pair(j, i));
            }
        }
    }

    proof fn lemma_same_rows(a: Store, b: Store)
        requires
            a.rows@ == b.rows@,
            a.wf(),
        ensures
            b.wf(),
            a.counts() == b.counts(),
    {
        assert forall|i: int, j: int| 0 <= i < j < b.rows.len() implies !(#[trigger] b.same_pair(
            i,
            j,
        )) by {
            assert(b.same_pair(i, j) == a.same_pair(i, j));
        }
        assert forall|i: int| 0 <= i < b.rows.len() implies (#[trigger] b.rows[i]).count >= 1 by {
            assert(b.rows[i] == a.rows[i]);
        }
        assert forall|p: (Seq<char>, int)| #[trigger] a.has_row(p.0, p.1) == b.has_row(
            p.0,
            p.1,
        ) by {
            if a.has_row(p.0, p.1) {
                let t = choose|t: int| 0 <= t < a.rows.len() && a.row_matches(t, p.0, p.1);
                assert(b.row_matches(t, p.0, p.1));
                assert(b.has_row(p.0, p.1));
            }
            if b.has_row(p.0, p.1) {
                let t = choose|t: int| 0 <= t < b.rows.len() && b.row_matches(t, p.0, p.1);
                assert(a.row_matches(t, p.0, p.1));
                assert(a.has_row(p.0, p.1));
            }
        }
        assert forall|p: (Seq<char>, int)| #[trigger] a.counts().dom().contains(p)
            implies a.counts()[p] == b.counts()[p] by {
            let t = choose|t: int| 0 <= t < a.rows.len() && a.row_matches(t, p.0, p.1);
            a.lemma_counts_at(p.0, p.1, t);
            b.lemma_counts_at(p.0, p.1, t);
        }
        assert(a.counts() =~= b.counts());
    }

    /// An empty, healthy store.
    pub fn new() -> (s: Store)
        ensures
            s.wf(),
            s.is_online(),
            s.counts() == Map::<(Seq<char>, int), nat>::empty(),
    {
        let s = Store { rows: Vec::new(), online: true };
        proof {
            assert(s.counts() =~= Map::<(Seq<char>, int), nat>::empty());
        }
        s
    }

    fn find_row(&self, key: &String, day: Day) -> (r: Option<usize>)
        ensures
            match r {
                Some(i) => i < self.rows@.len() && self.row_matches(
                    i as int,
                    key@,
                    day.num as int,
                ),
                None => !self.has_row(key@, day.num as int),
            },
    {
        let n: usize = self.rows.len();
        let mut i: usize = 0;
        while i < n
            invariant
                n == self.rows@.len(),
                i <= n,
                forall|t: int|
                    0 <= t < i ==> !(#[trigger] self.row_matches(t, key@, day.num as int)),
            decreases n - i,
        {
            if self.rows[i].key == *key && self.rows[i].day.num == day.num {
                return Some(i);
            }
            i += 1;
        }
        None
    }

    /// Whether the store can currently serve requests.
    pub fn available(&self) -> (b: bool)
        ensures
            b == self.is_online(),
    {
        self.online
    }

    /// The count the store holds for (key, day), or `None` when no row
    /// exists for that pair.
    pub(crate) fn lookup(&self, key: &String, day: Day) -> (r: Option<u64>)
        requires
            self.wf(),
        ensures
            match r {
                Some(c) => self.counts().dom().contains((key@, day.num as int)) && c
                    == count_at(self.counts(), key@, day.num as int),
                None => !self.counts().dom().contains((key@, day.num as int)),
            },
    {
        match self.find_row(key, day) {
            Some(i) => {
                proof {
                    self.lemma_counts_at(key@, day.num as int, i as int);
                }
                Some(self.rows[i].count)
            },
            None => None,
        }
    }

    proof fn lemma_counts_after_update(pre: Store, post: Store, i: int, key: Seq<char>, day: int)
        requires
            pre.wf(),
            0 <= i < pre.rows@.len(),
            pre.row_matches(i, key, day),
            post.rows@.len() == pre.rows@.len(),
            forall|t: int| 0 <= t < pre.rows@.len() && t != i ==> post.rows@[t] == pre.rows@[t],
            post.rows@[i].key == pre.rows@[i].key,
            post.rows@[i].day == pre.rows@[i].day,
            post.rows@[i].count == pre.rows@[i].count + 1,
        ensures
            post.wf(),
            post.counts() == bump(pre.counts(), key, day),
    {
        assert forall|a: int, b: int| 0 <= a < b < post.rows@.len() implies !(
        #[trigger] post.same_pair(a, b)) by {
            assert(post.same_pair(a, b) == pre.same_pair(a, b));
        }
        assert forall|t: int| 0 <= t < post.rows@.len() implies (#[trigger] post.rows[t]).count
            >= 1 by {
            assert(pre.rows[t].count >= 1);
        }
        assert forall|p: (Seq<char>, int)| #[trigger] post.has_row(p.0, p.1) == pre.has_row(
            p.0,
            p.1,
        ) by {
            if post.has_row(p.0, p.1) {
                let t = choose|t: int|
                    0 <= t < post.rows@.len() && post.row_matches(t, p.0, p.1);
                assert(pre.row_matches(t, p.0, p.1));
                assert(pre.has_row(p.0, p.1));
            }
            if pre.has_row(p.0, p.1) {
                let t = choose|t: int| 0 <= t < pre.rows@.len() && pre.row_matches(t, p.0, p.1);
                assert(post.row_matches(t, p.0, p.1));
                assert(post.has_row(p.0, p.1));
            }
        }
        pre.lemma_counts_at(key, day, i);
        post.lemma_counts_at(key, day, i);
        assert forall|p: (Seq<char>, int)| #[trigger] post.counts().dom().contains(p)
            implies post.counts()[p] == bump(pre.counts(), key, day)[p] by {
            if p == (key, day) {
            } else {
                let t = choose|t: int|
                    0 <= t < post.rows@.len() && post.row_matches(t, p.0, p.1);
                assert(t != i);
                pre.lemma_counts_at(p.0, p.1, t);
                post.lemma_counts_at(p.0, p.1, t);
            }
        }
        assert(post.counts() =~= bump(pre.counts(), key, day));
    }

    proof fn lemma_counts_after_create(pre: Store, post: Store, key: Seq<char>, day: int)
        requires
            pre.wf(),
            !pre.has_row(key, day),
            post.rows@.len() == pre.rows@.len() + 1,
            forall|t: int| 0 <= t < pre.rows@.len() ==> post.rows@[t] == pre.rows@[t],
            post.rows@[pre.rows@.len() as int].key@ == key,
            post.rows@[pre.rows@.len() as int].day.num == day,
            post.rows@[pre.rows@.len() as int].count == 1,
        ensures
            post.wf(),
            post.counts() == bump(pre.counts(), key, day),
    {
        let n = pre.rows@.len() as int;
        assert forall|a: int, b: int| 0 <= a < b < post.rows@.len() implies !(
        #[trigger] post.same_pair(a, b)) by {
            if b < n {
                assert(post.same_pair(a, b) == pre.same_pair(a, b));
            } else {
                if post.same_pair(a, b) {
                    assert(pre.row_matches(a, key, day));
                    assert(pre.has_row(key, day));
                }
            }
        }
        assert forall|t: int| 0 <= t < post.rows@.len() implies (#[trigger] post.rows[t]).count
            >= 1 by {
            if t < n {
                assert(pre.rows[t].count >= 1);
            }
        }
        post.lemma_counts_at(key, day, n);
        assert forall|p: (Seq<char>, int)| #[trigger] post.has_row(p.0, p.1) == (pre.has_row(
            p.0,
            p.1,
        ) || p == (key, day)) by {
            if post.has_row(p.0, p.1) {
                let t = choose|t: int|
                    0 <= t < post.rows@.len() && post.row_matches(t, p.0, p.1);
                if t < n {
                    assert(pre.row_matches(t, p.0, p.1));
                    assert(pre.has_row(p.0, p.1));
                } else {
                    assert(p.0 == key && p.1 == day);
                }
            }
            if pre.has_row(p.0, p.1) {
                let t = choose|t: int| 0 <= t < pre.rows@.len() && pre.row_matches(t, p.0, p.1);
                assert(post.row_matches(t, p.0, p.1));
                assert(post.has_row(p.0, p.1));
            }
        }
        assert forall|p: (Seq<char>, int)| #[trigger] post.counts().dom().contains(p)
            implies post.counts()[p] == bump(pre.counts(), key, day)[p] by {
            if p == (key, day) {
            } else {
                let t = choose|t: int|
                    0 <= t < post.rows@.len() && post.row_matches(t, p.0, p.1);
                assert(t < n);
                pre.lemma_counts_at(p.0, p.1, t);
                post.lemma_counts_at(p.0, p.1, t);
            }
        }
        assert(post.counts() =~= bump(pre.counts(), key, day));
    }

    /// Best-effort atomic "create or increment" for (key, day): the write
    /// path. Returns whether the counter row was durably updated. A failing
    /// store is absorbed into the result: the call then reports `false`,
    /// leaves the persisted content untouched, and never propagates an error
    /// to its caller, so a failure here cannot break the caller's primary
    /// operation.
    pub fn record_download(&mut self, key: &str, day: Day) -> (counted: bool)
        requires
            old(self).wf(),
            count_at(old(self).counts(), key@, day.num as int) < u64::MAX,
        ensures
            final(self).wf(),
            final(self).is_online() == old(self).is_online(),
            counted == old(self).is_online(),
            old(self).is_online() ==> final(self).counts() == bump(
                old(self).counts(),
                key@,
                day.num as int,
            ),
            !old(self).is_online() ==> final(self).counts() == old(self).counts(),
    {
        if !self.online {
            return false;
        }
        let owned: String = key.to_owned();
        match self.find_row(&owned, day) {
            Some(i) => {
                proof {
                    self.lemma_counts_at(key@, day.num as int, i as int);
                }
                let c: u64 = self.rows[i].count;
                self.rows[i].count = c + 1;
                proof {
                    Self::lemma_counts_after_update(
                        *old(self),
                        *self,
                        i as int,
                        key@,
                        day.num as int,
                    );
                }
                true
            },
            None => {
                self.rows.push(CounterRow { key: owned, day, count: 1 });
                proof {
                    Self::lemma_counts_after_create(*old(self), *self, key@, day.num as int);
                }
                true
            },
        }
    }

    /// `record_download` without the headroom obligation: a counter already
    /// at the u64 ceiling cannot be incremented, and that constraint
    /// violation is absorbed like any other store failure, as "not counted"
    /// with the content untouched.
    pub fn try_record_download(&mut self, key: &str, day: Day) -> (counted: bool)
        requires
            old(self).wf(),
        ensures
            final(self).wf(),
            final(self).is_online() == old(self).is_online(),
            counted == (old(self).is_online() && count_at(
                old(self).counts(),
                key@,
                day.num as int,
            ) < u64::MAX),
            counted ==> final(self).counts() == bump(old(self).counts(), key@, day.num as int),
            !counted ==> final(self).counts() == old(self).counts(),
    {
        if !self.available() {
            return false;
        }
        let owned: String = key.to_owned();
        let at_ceiling = match self.lookup(&owned, day) {
            Some(c) => c == u64::MAX,
            None => false,
        };
        if at_ceiling {
            false
        } else {
            self.record_download(key, day)
        }
    }

    /// Force the store's availability: offline models a failing store
    /// (connection down, read-only mode, timeout); online restores service.
    /// The persisted content is untouched either way.
    pub fn set_online(&mut self, online: bool)
        requires
            old(self).wf(),
        ensures
            final(self).wf(),
            final(self).counts() == old(self).counts(),
            final(self).is_online() == online,
    {
        self.online = online;
        proof {
            Self::lemma_same_rows(*old(self), *self);
        }
    }
}

} // verus!
