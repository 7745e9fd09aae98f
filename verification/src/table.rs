//! The full table computation: build one hour row per zone around the
//! reference instant, then order the rows for the chosen sort mode
//! against a fresh reading of the current instant.
//!
//! The reference instant fixes what the cells show; the ordering
//! deliberately uses a second, live "now" reading instead, so the row
//! order reflects current real time even when a historical or future
//! date is displayed.

use vstd::prelude::*;
use crate::matrix::{TimezoneHours, build_rows, row_cells, row_matches, slots_safe};
use crate::order::{SortOrder, mode_sorted, order_rows};
use crate::zones::{MAX_INSTANT_SECS, MIN_INSTANT_SECS, Zone, now_secs, tz_safe};

verus! {

/// What a row shows, as a mathematical value: its name, its zone's name,
/// and the text of its cells.
pub open spec fn row_model(row: TimezoneHours) -> (Seq<char>, Seq<char>, Seq<Seq<char>>) {
    (row.name@, row.zone@, row.hours@.map_values(|s: String| s@))
}

/// The models of a sequence of rows.
pub open spec fn models_of(rows: Seq<TimezoneHours>) -> Seq<(Seq<char>, Seq<char>, Seq<Seq<char>>)> {
    rows.map_values(|row: TimezoneHours| row_model(row))
}

/// The models of the rows that building the matrix for `ids` yields, in
/// request order.
pub open spec fn built_models(ids: Seq<Seq<char>>, date: int, span: int, am_pm: bool) -> Seq<
    (Seq<char>, Seq<char>, Seq<Seq<char>>),
> {
    Seq::new(ids.len(), |k: int| (ids[k], ids[k], row_cells(ids[k], date, span, am_pm)))
}

/// Mapping a function over two sequences with the same multiset of
/// elements gives the same multiset of images.
pub proof fn lemma_map_values_multiset<A, B>(s: Seq<A>, t: Seq<A>, f: spec_fn(A) -> B)
    requires
        s.to_multiset() == t.to_multiset(),
    ensures
        s.map_values(f).to_multiset() == t.map_values(f).to_multiset(),
    decreases s.len(),
{
    broadcast use vstd::multiset::group_multiset_axioms;

    vstd::seq_lib::to_multiset_len::<A>(s);
    vstd::seq_lib::to_multiset_len::<A>(t);
    if s.len() == 0 {
        assert(s.map_values(f) =~= t.map_values(f));
    } else {
        let a = s[0];
        assert(s.contains(a));
        vstd::seq_lib::to_multiset_contains::<A>(s, a);
        vstd::seq_lib::to_multiset_contains::<A>(t, a);
        assert(t.contains(a));
        let j = choose|j: int| 0 <= j < t.len() && t[j] == a;
        assert(s.remove(0) =~= s.drop_first());
        vstd::seq_lib::to_multiset_remove::<A>(s, 0);
        vstd::seq_lib::to_multiset_remove::<A>(t, j);
        lemma_map_values_multiset(s.drop_first(), t.remove(j), f);
        // the mapped sequences decompose the same way
        assert(s.map_values(f).remove(0) =~= s.drop_first().map_values(f));
        assert(t.map_values(f).remove(j) =~= t.remove(j).map_values(f));
        vstd::seq_lib::to_multiset_remove::<B>(s.map_values(f), 0);
        vstd::seq_lib::to_multiset_remove::<B>(t.map_values(f), j);
        assert(s.map_values(f)[0] == f(a));
        assert(t.map_values(f)[j] == f(a));
        // put the removed image back on both sides
        assert(s.map_values(f).to_multiset().remove(f(a)).insert(f(a)) =~= s.map_values(
            f,
        ).to_multiset()) by {
            assert(s.map_values(f).contains(s.map_values(f)[0]));
            vstd::seq_lib::to_multiset_contains::<B>(s.map_values(f), f(a));
        }
        assert(t.map_values(f).to_multiset().remove(f(a)).insert(f(a)) =~= t.map_values(
            f,
        ).to_multiset()) by {
            assert(t.map_values(f).contains(t.map_values(f)[j]));
            vstd::seq_lib::to_multiset_contains::<B>(t.map_values(f), f(a));
        }
        assert(s.map_values(f).to_multiset() == t.map_values(f).to_multiset());
    }
}

/// Builds the hour matrix for the requested zones at the reference
/// instant and orders the rows for the chosen mode. The output holds
/// exactly the built rows (in request order when unsorted); for the
/// sorted modes their order is ranked by the rows' naive local timestamps
/// at some current instant read during the call.
pub fn calculate_timezone_hours(
    zones: Vec<Zone>,
    date_secs: i64,
    span: i32,
    am_pm: bool,
    sort_order: SortOrder,
) -> (r: Vec<TimezoneHours>)
    requires
        slots_safe(date_secs as int, span as int),
    ensures
        r@.len() == zones@.len(),
        models_of(r@).to_multiset() == built_models(
            zones@.map_values(|z: Zone| z@),
            date_secs as int,
            span as int,
            am_pm,
        ).to_multiset(),
        sort_order is Unsorted ==> models_of(r@) == built_models(
            zones@.map_values(|z: Zone| z@),
            date_secs as int,
            span as int,
            am_pm,
        ),
        exists|now: int| tz_safe(now) && mode_sorted(r@, sort_order, now),
{
    let ghost ids = zones@.map_values(|z: Zone| z@);
    let rows = build_rows(zones, date_secs, span, am_pm);
    proof {
        assert(models_of(rows@) =~= built_models(ids, date_secs as int, span as int, am_pm));
    }
    let ghost rows0 = rows@;
    let mut now = now_secs();
    if now < MIN_INSTANT_SECS + 86400 {
        now = MIN_INSTANT_SECS + 86400;
    }
    if now > MAX_INSTANT_SECS - 86400 {
        now = MAX_INSTANT_SECS - 86400;
    }
    let r = order_rows(rows, sort_order, now);
    proof {
        lemma_map_values_multiset(r@, rows0, |row: TimezoneHours| row_model(row));
        assert(tz_safe(now as int) && mode_sorted(r@, sort_order, now as int));
    }
    r
}

} // verus!
