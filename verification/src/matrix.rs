//! The hour matrix: one row of formatted hour cells per timezone, built
//! around a reference instant.
//!
//! The centering rule puts the current hour at slot index `span / 2 - 1`
//! (truncating division); slot `i` shows the instant `i - (span / 2 - 1)`
//! hours away from the reference, read on that timezone's wall clock.

use vstd::prelude::*;
use crate::cells::{
    cell_suffix,
    cell_text,
    day_suffix,
    format_cell,
    is_current_cell,
    lemma_cell_current_marker,
    lemma_cell_suffix,
};
use crate::zones::{Zone, local_date_num, local_date_num_of, local_hour, local_hour_of, tz_safe};

verus! {

/// One table row: the requested timezone name, the zone it resolved to,
/// and the formatted hour cells in chronological order.
pub struct TimezoneHours {
    pub name: String,
    pub zone: Zone,
    pub hours: Vec<String>,
}

/// Number of hour slots a span yields: the span itself, or none for a
/// negative span.
pub open spec fn slot_count(span: int) -> int {
    if span >= 0 {
        span
    } else {
        0
    }
}

/// Index of the slot that shows the current hour: `span / 2 - 1` with
/// truncating division, so spans of 0 or 1 give a negative index and no
/// slot is marked current.
pub open spec fn half_of(span: int) -> int {
    span / 2 - 1
}

/// Executable form of the centering rule.
pub fn half_span(span: i32) -> (h: i32)
    requires
        span >= 0,
    ensures
        h == half_of(span as int),
{
    span / 2 - 1
}

/// Hour distance of slot `i` from the reference instant.
pub open spec fn slot_offset(span: int, i: int) -> int {
    i - half_of(span)
}

/// The instant slot `i` shows, in Unix seconds.
pub open spec fn slot_secs(date: int, span: int, i: int) -> int {
    date + slot_offset(span, i) * 3600
}

/// The text of slot `i` of the row for timezone `zone`: its local hour at
/// the slot's instant, the day-crossing marker of its local calendar date
/// against the reference's local calendar date in the same timezone,
/// wrapped when the slot is the current hour.
pub open spec fn cell_for(zone: Seq<char>, date: int, span: int, am_pm: bool, i: int) -> Seq<
    char,
> {
    cell_text(
        local_hour_of(zone, slot_secs(date, span, i)),
        day_suffix(local_date_num_of(zone, slot_secs(date, span, i)), local_date_num_of(zone, date)),
        i == half_of(span),
        am_pm,
    )
}

/// All cells of the row for timezone `zone`, in chronological order.
pub open spec fn row_cells(zone: Seq<char>, date: int, span: int, am_pm: bool) -> Seq<Seq<char>> {
    Seq::new(slot_count(span) as nat, |i: int| cell_for(zone, date, span, am_pm, i))
}

/// What it means for a built row to be the row of `zone_id`: it carries
/// that name, that zone, and exactly the modeled cells.
pub open spec fn row_matches(
    row: TimezoneHours,
    zone_id: Seq<char>,
    date: int,
    span: int,
    am_pm: bool,
) -> bool {
    &&& row.name@ == zone_id
    &&& row.zone@ == zone_id
    &&& row.hours@.map_values(|s: String| s@) == row_cells(zone_id, date, span, am_pm)
}

/// The reference instant and every slot instant of the span are far
/// enough from chrono's representable edge to be read in any timezone.
pub open spec fn slots_safe(date: int, span: int) -> bool {
    &&& tz_safe(date)
    &&& forall|i: int| 0 <= i < slot_count(span) ==> tz_safe(#[trigger] slot_secs(date, span, i))
}

fn build_cells(z: &Zone, date_secs: i64, span: i32, am_pm: bool) -> (r: Vec<String>)
    requires
        slots_safe(date_secs as int, span as int),
    ensures
        r@.map_values(|s: String| s@) == row_cells(z@, date_secs as int, span as int, am_pm),
{
    let mut cells: Vec<String> = Vec::new();
    if span <= 0 {
        proof {
            assert(cells@.map_values(|s: String| s@) =~= row_cells(
                z@,
                date_secs as int,
                span as int,
                am_pm,
            ));
        }
        return cells;
    }
    let half = half_span(span);
    let ref_date = local_date_num(z, date_secs);
    let mut i: i32 = 0;
    while i < span
        invariant
            0 <= i <= span,
            1 <= span,
            half == half_of(span as int),
            slots_safe(date_secs as int, span as int),
            ref_date as int == local_date_num_of(z@, date_secs as int),
            cells@.len() == i,
            cells@.map_values(|s: String| s@) == row_cells(
                z@,
                date_secs as int,
                span as int,
                am_pm,
            ).take(i as int),
        decreases span - i,
    {
        let offset = i - half;
        let shifted = date_secs + (offset as i64) * 3600;
        proof {
            assert(shifted as int == slot_secs(date_secs as int, span as int, i as int));
            assert(tz_safe(slot_secs(date_secs as int, span as int, i as int)));
        }
        let hour = local_hour(z, shifted);
        let sdate = local_date_num(z, shifted);
        let cell = format_cell(hour, sdate, ref_date, offset == 0, am_pm);
        proof {
            assert(cell@ == cell_for(z@, date_secs as int, span as int, am_pm, i as int));
        }
        cells.push(cell);
        proof {
            assert(cells@.map_values(|s: String| s@) =~= row_cells(
                z@,
                date_secs as int,
                span as int,
                am_pm,
            ).take(i + 1));
        }
        i = i + 1;
    }
    proof {
        assert(row_cells(z@, date_secs as int, span as int, am_pm).take(span as int) =~= row_cells(
            z@,
            date_secs as int,
            span as int,
            am_pm,
        ));
    }
    cells
}

/// Builds one row per requested zone, in request order: for each zone the
/// span's hour cells around the reference instant.
pub fn build_rows(zones: Vec<Zone>, date_secs: i64, span: i32, am_pm: bool) -> (r: Vec<
    TimezoneHours,
>)
    requires
        slots_safe(date_secs as int, span as int),
    ensures
        r@.len() == zones@.len(),
        forall|k: int|
            0 <= k < zones@.len() ==> row_matches(
                #[trigger] r@[k],
                zones@[k]@,
                date_secs as int,
                span as int,
                am_pm,
            ),
{
    let ghost orig = zones@;
    let mut zs = zones;
    let mut rows: Vec<TimezoneHours> = Vec::new();
    while zs.len() > 0
        invariant
            slots_safe(date_secs as int, span as int),
            rows@.len() + zs@.len() == orig.len(),
            zs@ == orig.subrange(rows@.len() as int, orig.len() as int),
            forall|k: int|
                0 <= k < rows@.len() ==> row_matches(
                    #[trigger] rows@[k],
                    orig[k]@,
                    date_secs as int,
                    span as int,
                    am_pm,
                ),
        decreases zs@.len(),
    {
        let ghost done = rows@.len() as int;
        let z = zs.remove(0);
        proof {
            assert(z == orig[done]);
            assert(zs@ =~= orig.subrange(done + 1, orig.len() as int));
        }
        let cells = build_cells(&z, date_secs, span, am_pm);
        let name = z.id().clone();
        let row = TimezoneHours { name, zone: z, hours: cells };
        rows.push(row);
    }
    rows
}

/// Every built row has exactly `span` cells, for any span of at least one
/// slot.
pub proof fn lemma_row_len(zone: Seq<char>, date: int, span: int, am_pm: bool)
    requires
        span >= 1,
    ensures
        row_cells(zone, date, span, am_pm).len() == span,
{
}

/// The slot at index `span / 2 - 1` carries the wrapped current-hour
/// marking, and no other slot does.
pub proof fn lemma_current_slot(zone: Seq<char>, date: int, span: int, am_pm: bool, i: int)
    requires
        0 <= i < slot_count(span),
    ensures
        is_current_cell(row_cells(zone, date, span, am_pm)[i]) <==> i == half_of(span),
{
    lemma_cell_current_marker(
        local_hour_of(zone, slot_secs(date, span, i)),
        day_suffix(local_date_num_of(zone, slot_secs(date, span, i)), local_date_num_of(zone, date)),
        i == half_of(span),
        am_pm,
    );
}

/// Day-crossing law: a slot's suffix is `+` exactly when its local
/// calendar date is later than the reference's local calendar date in
/// the same timezone, `-` exactly when it is earlier, and a space exactly
/// when both fall on the same local day. Whole dates are compared, so the
/// law holds across month and year boundaries.
pub proof fn lemma_day_crossing(zone: Seq<char>, date: int, span: int, am_pm: bool, i: int)
    requires
        0 <= i < slot_count(span),
    ensures
        ({
            let sfx = cell_suffix(row_cells(zone, date, span, am_pm)[i]);
            let sd = local_date_num_of(zone, slot_secs(date, span, i));
            let rd = local_date_num_of(zone, date);
            &&& (sfx == '+' <==> sd > rd)
            &&& (sfx == '-' <==> sd < rd)
            &&& (sfx == ' ' <==> sd == rd)
        }),
{
    lemma_cell_suffix(
        local_hour_of(zone, slot_secs(date, span, i)),
        day_suffix(local_date_num_of(zone, slot_secs(date, span, i)), local_date_num_of(zone, date)),
        i == half_of(span),
        am_pm,
    );
}

} // verus!
