use vstd::prelude::*;

verus! {

/// The abstract content of the store: a finite map from (key, day) to the
/// count persisted for that pair. A day with no row is simply absent.
pub type Counts = Map<(Seq<char>, int), nat>;

/// The count that `m` holds for (key, day): the row's value, or zero when no
/// row exists.
pub open spec fn count_at(m: Counts, key: Seq<char>, day: int) -> nat {
    if m.dom().contains((key, day)) {
        m[(key, day)]
    } else {
        0
    }
}

/// One atomic "create or increment": the effect a single successful
/// recording has on the store's content. A missing row appears with count 1;
/// an existing row's count grows by 1.
pub open spec fn bump(m: Counts, key: Seq<char>, day: int) -> Counts {
    m.insert((key, day), count_at(m, key, day) + 1)
}

/// `n` successive atomic recordings for the same (key, day).
pub open spec fn bump_n(m: Counts, key: Seq<char>, day: int, n: nat) -> Counts
    decreases n,
{
    if n == 0 {
        m
    } else {
        bump(bump_n(m, key, day, (n - 1) as nat), key, day)
    }
}

/// Concurrent recordings serialize into some order of atomic
/// create-or-increment steps, so their combined effect is `bump_n`. This law
/// says that n such steps for one (key, day) raise exactly that pair's count
/// by n — no update is lost, no other pair is touched, and no second row for
/// the pair can appear.
pub proof fn lemma_bumps_accumulate(m: Counts, key: Seq<char>, day: int, n: nat)
    ensures
        count_at(bump_n(m, key, day, n), key, day) == count_at(m, key, day) + n,
        n > 0 ==> bump_n(m, key, day, n).dom().contains((key, day)),
        forall|k: Seq<char>, d: int|
            !(k == key && d == day) ==> #[trigger] count_at(bump_n(m, key, day, n), k, d)
                == count_at(m, k, d),
        forall|k: Seq<char>, d: int|
            !(k == key && d == day) ==> (#[trigger] bump_n(m, key, day, n).dom().contains((k, d))
                <==> m.dom().contains((k, d))),
    decreases n,
{
    if n > 0 {
        lemma_bumps_accumulate(m, key, day, (n - 1) as nat);
        let prev = bump_n(m, key, day, (n - 1) as nat);
        assert forall|k: Seq<char>, d: int| !(k == key && d == day) implies #[trigger] count_at(
            bump_n(m, key, day, n),
            k,
            d,
        ) == count_at(m, k, d) by {
            assert((k, d) != (key, day));
            assert(count_at(bump(prev, key, day), k, d) == count_at(prev, k, d));
        }
    }
}

} // verus!
