//! Cross-timezone ordering of the built rows.
//!
//! Each row's rank key is its timezone's wall-clock reading of "now"
//! collapsed back to a raw timestamp (the naive local timestamp), so two
//! timezones showing the same wall-clock time rank equal even when their
//! true offsets differ. East-first puts larger keys first (zones further
//! ahead of UTC lead), west-first smaller keys first; the unsorted mode
//! keeps the rows as they came. The comparison takes the direction as a
//! mode rather than negating an ascending sort afterwards.

use vstd::prelude::*;
use vstd::relations::sorted_by;
use crate::matrix::TimezoneHours;
use crate::zones::{local_key, local_key_of, tz_safe};

verus! {

/// How the rows of the table are ordered.
pub enum SortOrder {
    Unsorted,
    East,
    West,
}

/// A row's rank key at the instant `now`: the naive local timestamp of
/// `now` in the row's timezone.
pub open spec fn row_key(row: TimezoneHours, now: int) -> int {
    local_key_of(row.zone@, now)
}

/// The comparison a sort direction uses: east-first puts larger keys
/// first, west-first smaller keys first.
pub open spec fn dir_leq(east: bool, now: int) -> spec_fn(TimezoneHours, TimezoneHours) -> bool {
    |a: TimezoneHours, b: TimezoneHours|
        if east {
            row_key(a, now) >= row_key(b, now)
        } else {
            row_key(a, now) <= row_key(b, now)
        }
}

/// What the chosen mode guarantees of the output order at snapshot `now`.
pub open spec fn mode_sorted(rows: Seq<TimezoneHours>, mode: SortOrder, now: int) -> bool {
    match mode {
        SortOrder::Unsorted => true,
        SortOrder::East => sorted_by(rows, dir_leq(true, now)),
        SortOrder::West => sorted_by(rows, dir_leq(false, now)),
    }
}

fn in_order(a: &TimezoneHours, b: &TimezoneHours, east: bool, now: i64) -> (r: bool)
    requires
        tz_safe(now as int),
    ensures
        r == dir_leq(east, now as int)(*a, *b),
{
    let ka = local_key(&a.zone, now);
    let kb = local_key(&b.zone, now);
    if east {
        ka >= kb
    } else {
        ka <= kb
    }
}

fn sort_rows(v: &mut Vec<TimezoneHours>, east: bool, now: i64)
    requires
        tz_safe(now as int),
    ensures
        final(v)@.len() == old(v)@.len(),
        final(v)@.to_multiset() == old(v)@.to_multiset(),
        sorted_by(final(v)@, dir_leq(east, now as int)),
{
    broadcast use vstd::seq_lib::group_to_multiset_ensures;
    broadcast use vstd::multiset::group_multiset_axioms;

    let ghost leq = dir_leq(east, now as int);
    if v.len() <= 1 {
        return;
    }
    let mut i: usize = 1;
    while i < v.len()
        invariant
            tz_safe(now as int),
            leq == dir_leq(east, now as int),
            1 <= i <= v@.len(),
            v@.len() == old(v)@.len(),
            v@.to_multiset() == old(v)@.to_multiset(),
            sorted_by(v@.take(i as int), leq),
        decreases v@.len() - i,
    {
        let mut j: usize = i;
        let mut moving = true;
        proof {
            assert forall|a: int, b: int| 0 <= a < b <= i && a != j && b != j implies leq(
                #[trigger] v@[a],
                #[trigger] v@[b],
            ) by {
                assert(leq(v@.take(i as int)[a], v@.take(i as int)[b]));
            }
        }
        while moving && j > 0
            invariant
                tz_safe(now as int),
                leq == dir_leq(east, now as int),
                0 <= j <= i < v@.len(),
                v@.len() == old(v)@.len(),
                v@.to_multiset() == old(v)@.to_multiset(),
                forall|a: int, b: int|
                    0 <= a < b <= i && a != j && b != j ==> leq(#[trigger] v@[a], #[trigger] v@[b]),
                forall|b: int| j < b <= i ==> leq(v@[j as int], #[trigger] v@[b]),
                !moving && j > 0 ==> leq(v@[j as int - 1], v@[j as int]),
            decreases j + (if moving {
                1int
            } else {
                0int
            }),
        {
            if in_order(&v[j - 1], &v[j], east, now) {
                moving = false;
            } else {
                let ghost pre = v@;
                let x = v.remove(j);
                v.insert(j - 1, x);
                proof {
                    assert(v@ =~= pre.update(j as int - 1, pre[j as int]).update(
                        j as int,
                        pre[j as int - 1],
                    ));
                    vstd::seq_lib::to_multiset_remove::<TimezoneHours>(pre, j as int);
                    assert(pre.remove(j as int).to_multiset() == pre.to_multiset().remove(
                        pre[j as int],
                    ));
                    vstd::seq_lib::to_multiset_insert(pre.remove(j as int), j as int - 1, x);
                    vstd::seq_lib::to_multiset_contains::<TimezoneHours>(pre, pre[j as int]);
                    assert(pre.contains(pre[j as int]));
                    assert(pre.to_multiset().contains(pre[j as int]));
                    assert(pre.to_multiset().remove(pre[j as int]).insert(pre[j as int])
                        =~= pre.to_multiset());
                    assert(v@.to_multiset() == pre.to_multiset());
                    // the moved element stays below everything after it
                    assert(leq(pre[j as int], pre[j as int - 1]));
                    assert forall|b: int| j - 1 < b <= i implies leq(
                        v@[j as int - 1],
                        #[trigger] v@[b],
                    ) by {
                        if b == j {
                            assert(v@[b] == pre[j as int - 1]);
                        } else {
                            assert(v@[b] == pre[b]);
                        }
                    }
                    // the rest keeps its order
                    assert forall|a: int, b: int|
                        0 <= a < b <= i && a != j - 1 && b != j - 1 implies leq(
                        #[trigger] v@[a],
                        #[trigger] v@[b],
                    ) by {
                        if b == j {
                            assert(v@[b] == pre[j as int - 1]);
                            if a < j - 1 {
                                assert(leq(pre[a], pre[j as int - 1]));
                            }
                        } else {
                            assert(v@[b] == pre[b]);
                            if a == j {
                                assert(v@[a] == pre[j as int - 1]);
                            } else {
                                assert(v@[a] == pre[a]);
                            }
                        }
                    }
                }
                j = j - 1;
            }
        }
        proof {
            assert forall|a: int, b: int| 0 <= a < b <= i implies leq(
                #[trigger] v@[a],
                #[trigger] v@[b],
            ) by {
                if a == j {
                    assert(leq(v@[j as int], v@[b]));
                } else if b == j {
                    assert(j > 0);
                    assert(leq(v@[j as int - 1], v@[j as int]));
                    if a < j - 1 {
                        assert(leq(v@[a], v@[j as int - 1]));
                    }
                }
            }
            assert(sorted_by(v@.take(i as int + 1), leq));
        }
        i = i + 1;
    }
    proof {
        assert(v@.take(v@.len() as int) =~= v@);
    }
}

/// Orders the built rows for rendering. The unsorted mode returns them
/// unchanged; east-first and west-first return the same rows sorted by
/// their rank key at the snapshot `now`, larger keys first for east-first
/// and smaller first for west-first. Ties are broken arbitrarily.
pub fn order_rows(rows: Vec<TimezoneHours>, sort_order: SortOrder, now: i64) -> (r: Vec<
    TimezoneHours,
>)
    requires
        tz_safe(now as int),
    ensures
        r@.len() == rows@.len(),
        r@.to_multiset() == rows@.to_multiset(),
        sort_order is Unsorted ==> r@ == rows@,
        mode_sorted(r@, sort_order, now as int),
{
    match sort_order {
        SortOrder::Unsorted => rows,
        SortOrder::East => {
            let mut v = rows;
            sort_rows(&mut v, true, now);
            v
        },
        SortOrder::West => {
            let mut v = rows;
            sort_rows(&mut v, false, now);
            v
        },
    }
}

/// No two rows share a rank key at snapshot `now`.
pub open spec fn distinct_keys(rows: Seq<TimezoneHours>, now: int) -> bool {
    forall|i: int, j: int|
        0 <= i < j < rows.len() ==> row_key(rows[i], now) != row_key(rows[j], now)
}

/// Order independence: the output order of a sort direction is a pure
/// function of the rows' rank keys. Any two sequences holding the same
/// rows, both sorted the same way at the same snapshot, with pairwise
/// distinct keys, are the same sequence.
pub proof fn lemma_sorted_unique_keys(
    x: Seq<TimezoneHours>,
    y: Seq<TimezoneHours>,
    east: bool,
    now: int,
)
    requires
        sorted_by(x, dir_leq(east, now)),
        sorted_by(y, dir_leq(east, now)),
        x.to_multiset() == y.to_multiset(),
        distinct_keys(x, now),
    ensures
        x == y,
    decreases x.len(),
{
    broadcast use vstd::seq_lib::group_to_multiset_ensures;
    broadcast use vstd::multiset::group_multiset_axioms;

    let leq = dir_leq(east, now);
    vstd::seq_lib::to_multiset_len::<TimezoneHours>(x);
    vstd::seq_lib::to_multiset_len::<TimezoneHours>(y);
    assert(x.len() == y.len());
    if x.len() == 0 {
        assert(x =~= y);
    } else {
        assert(x.contains(x[0]));
        vstd::seq_lib::to_multiset_contains::<TimezoneHours>(x, x[0]);
        vstd::seq_lib::to_multiset_contains::<TimezoneHours>(y, x[0]);
        assert(y.contains(x[0]));
        assert(y.contains(y[0]));
        vstd::seq_lib::to_multiset_contains::<TimezoneHours>(y, y[0]);
        vstd::seq_lib::to_multiset_contains::<TimezoneHours>(x, y[0]);
        assert(x.contains(y[0]));
        let i = choose|i: int| 0 <= i < x.len() && x[i] == y[0];
        let j = choose|j: int| 0 <= j < y.len() && y[j] == x[0];
        assert(leq(x[0], x[i]));
        assert(leq(y[0], y[j]));
        assert(row_key(x[0], now) == row_key(y[0], now));
        assert(x[0] == y[0]) by {
            if i != 0 {
                assert(row_key(x[0], now) != row_key(x[i], now));
            }
        }
        assert(x.remove(0) =~= x.drop_first());
        assert(y.remove(0) =~= y.drop_first());
        vstd::seq_lib::to_multiset_remove::<TimezoneHours>(x, 0);
        vstd::seq_lib::to_multiset_remove::<TimezoneHours>(y, 0);
        assert(x.drop_first().to_multiset() == x.to_multiset().remove(x[0]));
        assert(y.drop_first().to_multiset() == y.to_multiset().remove(y[0]));
        assert forall|a: int, b: int| 0 <= a < b < x.drop_first().len() implies leq(
            #[trigger] x.drop_first()[a],
            #[trigger] x.drop_first()[b],
        ) by {
            assert(leq(x[a + 1], x[b + 1]));
        }
        assert forall|a: int, b: int| 0 <= a < b < y.drop_first().len() implies leq(
            #[trigger] y.drop_first()[a],
            #[trigger] y.drop_first()[b],
        ) by {
            assert(leq(y[a + 1], y[b + 1]));
        }
        assert forall|a: int, b: int| 0 <= a < b < x.drop_first().len() implies row_key(
            x.drop_first()[a],
            now,
        ) != row_key(x.drop_first()[b], now) by {
            assert(row_key(x[a + 1], now) != row_key(x[b + 1], now));
        }
        lemma_sorted_unique_keys(x.drop_first(), y.drop_first(), east, now);
        assert forall|k: int| 0 <= k < x.len() implies x[k] == y[k] by {
            if k > 0 {
                assert(x[k] == x.drop_first()[k - 1]);
                assert(y[k] == y.drop_first()[k - 1]);
            }
        }
        assert(x =~= y);
    }
}

/// East-first and west-first orderings of the same rows at the same "now"
/// snapshot are exact reverses of each other, when no two rows share a
/// rank key.
pub proof fn lemma_east_west_reverse(e: Seq<TimezoneHours>, w: Seq<TimezoneHours>, now: int)
    requires
        e.to_multiset() == w.to_multiset(),
        sorted_by(e, dir_leq(true, now)),
        sorted_by(w, dir_leq(false, now)),
        distinct_keys(e, now),
    ensures
        e == w.reverse(),
{
    w.lemma_reverse_to_multiset();
    assert forall|a: int, b: int| 0 <= a < b < w.reverse().len() implies dir_leq(true, now)(
        #[trigger] w.reverse()[a],
        #[trigger] w.reverse()[b],
    ) by {
        let n = w.len() as int;
        assert(w.reverse()[a] == w[n - 1 - a]);
        assert(w.reverse()[b] == w[n - 1 - b]);
        assert(dir_leq(false, now)(w[n - 1 - b], w[n - 1 - a]));
    }
    lemma_sorted_unique_keys(e, w.reverse(), true, now);
}

} // verus!
