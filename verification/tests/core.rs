use tzbuddy::cells::format_cell;
use tzbuddy::dates::{get_utc_date, parse_date_str};
use tzbuddy::matrix::build_rows;
use tzbuddy::order::{SortOrder, order_rows};
use tzbuddy::table::calculate_timezone_hours;
use tzbuddy::zones::get_timezones;

const NOON: i64 = 1704110400; // 2024-01-01 12:00:00 UTC

fn zones_for(names: &[&str]) -> Vec<tzbuddy::zones::Zone> {
    let (zones, rejected) = get_timezones(names.iter().map(|s| s.to_string()).collect());
    assert!(rejected.is_empty());
    zones
}

#[test]
fn instant_bounds_match_chrono() {
    assert_eq!(
        tzbuddy::zones::MIN_INSTANT_SECS,
        chrono::DateTime::<chrono::Utc>::MIN_UTC.timestamp()
    );
    assert_eq!(
        tzbuddy::zones::MAX_INSTANT_SECS,
        chrono::DateTime::<chrono::Utc>::MAX_UTC.timestamp()
    );
}

#[test]
fn centering_rule() {
    assert_eq!(tzbuddy::matrix::half_span(12), 5);
    assert_eq!(tzbuddy::matrix::half_span(4), 1);
    assert_eq!(tzbuddy::matrix::half_span(2), 0);
    assert_eq!(tzbuddy::matrix::half_span(1), -1);
    assert_eq!(tzbuddy::matrix::half_span(0), -1);
}

#[test]
fn daylight_saving_offsets_apply() {
    // 2024-07-01 12:00:00 UTC: London is on BST (UTC+1), New York on EDT (UTC-4)
    let rows = build_rows(
        zones_for(&["Europe/London", "America/New_York"]),
        1719835200,
        2,
        false,
    );
    assert_eq!(rows[0].hours, vec!["| 13 |", " 14 "]);
    assert_eq!(rows[1].hours, vec!["| 08 |", " 09 "]);
}

#[test]
fn cell_round_trip_current_hour_nine() {
    // 24h cell with offset 0 and hour 9 on the reference's day
    let cell = format_cell(9, 15, 15, true, false);
    assert_eq!(cell, "| 09 |");
}

#[test]
fn cell_formats_24h() {
    assert_eq!(format_cell(0, 1, 1, false, false), " 00 ");
    assert_eq!(format_cell(23, 2, 1, false, false), " 23+");
    assert_eq!(format_cell(5, 1, 2, false, false), " 05-");
}

#[test]
fn cell_formats_12h() {
    assert_eq!(format_cell(0, 1, 1, false, true), " 12 am ");
    assert_eq!(format_cell(9, 1, 1, false, true), "  9 am ");
    assert_eq!(format_cell(12, 1, 1, false, true), " 12 pm ");
    assert_eq!(format_cell(23, 1, 1, false, true), " 11 pm ");
    assert_eq!(format_cell(13, 1, 1, true, true), "|  1 pm |");
}

#[test]
fn rows_have_span_cells() {
    let rows = build_rows(zones_for(&["Europe/London", "Asia/Tokyo"]), NOON, 4, false);
    assert_eq!(rows.len(), 2);
    for row in &rows {
        assert_eq!(row.hours.len(), 4);
    }
}

#[test]
fn london_cells_at_noon() {
    let rows = build_rows(zones_for(&["Europe/London"]), NOON, 4, false);
    assert_eq!(rows[0].name, "Europe/London");
    assert_eq!(rows[0].hours, vec![" 11 ", "| 12 |", " 13 ", " 14 "]);
}

#[test]
fn tokyo_cells_at_noon() {
    let rows = build_rows(zones_for(&["Asia/Tokyo"]), NOON, 4, false);
    assert_eq!(rows[0].hours, vec![" 20 ", "| 21 |", " 22 ", " 23 "]);
}

#[test]
fn current_slot_is_half_index_and_only_it() {
    let rows = build_rows(zones_for(&["Europe/London"]), NOON, 6, false);
    let half = 6 / 2 - 1;
    for (i, cell) in rows[0].hours.iter().enumerate() {
        assert_eq!(cell.starts_with('|'), i == half);
    }
}

#[test]
fn day_crossing_plus_suffix() {
    // Tokyo local 23:00 on Jan 1; slots past midnight land on Jan 2
    let rows = build_rows(zones_for(&["Asia/Tokyo"]), 1704117600, 4, false);
    assert_eq!(rows[0].hours, vec![" 22 ", "| 23 |", " 00+", " 01+"]);
}

#[test]
fn day_crossing_across_month_boundary() {
    // 2024-01-31 23:00:00 UTC: slots past midnight fall on February 1st,
    // a later calendar day although its day-of-month number is smaller
    let rows = build_rows(zones_for(&["UTC"]), 1706742000, 4, false);
    assert_eq!(rows[0].hours, vec![" 22 ", "| 23 |", " 00+", " 01+"]);

    // 2024-02-01 00:00:00 UTC: the slot before midnight is back on
    // January 31st, an earlier calendar day with a larger day-of-month
    let rows = build_rows(zones_for(&["UTC"]), 1706745600, 4, false);
    assert_eq!(rows[0].hours, vec![" 23-", "| 00 |", " 01 ", " 02 "]);
}

#[test]
fn day_crossing_across_year_boundary() {
    // 2023-12-31 23:00:00 UTC: slots past midnight fall in 2024
    let rows = build_rows(zones_for(&["UTC"]), 1704063600, 4, false);
    assert_eq!(rows[0].hours, vec![" 22 ", "| 23 |", " 00+", " 01+"]);
}

#[test]
fn duplicate_requests_collapse() {
    let (zones, rejected) = get_timezones(vec![
        "UTC".to_string(),
        "UTC".to_string(),
        "Mars/Phobos".to_string(),
        "Mars/Phobos".to_string(),
    ]);
    assert_eq!(zones.len(), 1);
    assert_eq!(zones[0].id().as_str(), "UTC");
    assert_eq!(rejected, vec!["Mars/Phobos", "Mars/Phobos"]);
}

#[test]
fn day_crossing_minus_suffix() {
    // Tokyo local 00:30 on Jan 2; the slot before midnight is on Jan 1
    let rows = build_rows(zones_for(&["Asia/Tokyo"]), 1704123000, 4, false);
    assert_eq!(rows[0].hours, vec![" 23-", "| 00 |", " 01 ", " 02 "]);
}

#[test]
fn small_spans() {
    let zs = zones_for(&["Europe/London"]);
    let rows = build_rows(zs, NOON, 0, false);
    assert_eq!(rows[0].hours.len(), 0);

    // span 1: half is -1, so no slot is the current hour
    let rows = build_rows(zones_for(&["Europe/London"]), NOON, 1, false);
    assert_eq!(rows[0].hours, vec![" 13 "]);

    // span 2: half is 0, the first slot is the current hour
    let rows = build_rows(zones_for(&["Europe/London"]), NOON, 2, false);
    assert_eq!(rows[0].hours, vec!["| 12 |", " 13 "]);
}

#[test]
fn east_first_orders_tokyo_before_london() {
    let rows = build_rows(zones_for(&["Europe/London", "Asia/Tokyo"]), NOON, 4, false);
    let ordered = order_rows(rows, SortOrder::East, NOON);
    let names: Vec<&str> = ordered.iter().map(|r| r.name.as_str()).collect();
    assert_eq!(names, vec!["Asia/Tokyo", "Europe/London"]);
    for row in &ordered {
        assert_eq!(row.hours.len(), 4);
        assert!(row.hours[1].starts_with('|'));
    }
}

#[test]
fn west_first_is_reverse_of_east_first() {
    let names = &["Europe/London", "Asia/Tokyo", "America/New_York"];
    let east = order_rows(build_rows(zones_for(names), NOON, 4, false), SortOrder::East, NOON);
    let west = order_rows(build_rows(zones_for(names), NOON, 4, false), SortOrder::West, NOON);
    let east_names: Vec<&str> = east.iter().map(|r| r.name.as_str()).collect();
    let mut west_names: Vec<&str> = west.iter().map(|r| r.name.as_str()).collect();
    west_names.reverse();
    assert_eq!(east_names, vec!["Asia/Tokyo", "Europe/London", "America/New_York"]);
    assert_eq!(east_names, west_names);
}

#[test]
fn ordering_ignores_input_order() {
    let a = order_rows(
        build_rows(zones_for(&["Europe/London", "Asia/Tokyo"]), NOON, 4, false),
        SortOrder::East,
        NOON,
    );
    let b = order_rows(
        build_rows(zones_for(&["Asia/Tokyo", "Europe/London"]), NOON, 4, false),
        SortOrder::East,
        NOON,
    );
    let an: Vec<&str> = a.iter().map(|r| r.name.as_str()).collect();
    let bn: Vec<&str> = b.iter().map(|r| r.name.as_str()).collect();
    assert_eq!(an, bn);
}

#[test]
fn unsorted_keeps_request_order() {
    let rows = build_rows(zones_for(&["Europe/London", "Asia/Tokyo"]), NOON, 4, false);
    let ordered = order_rows(rows, SortOrder::Unsorted, NOON);
    let names: Vec<&str> = ordered.iter().map(|r| r.name.as_str()).collect();
    assert_eq!(names, vec!["Europe/London", "Asia/Tokyo"]);
}

#[test]
fn calculate_full_scenario() {
    let rows = calculate_timezone_hours(
        zones_for(&["Europe/London", "Asia/Tokyo"]),
        NOON,
        4,
        false,
        SortOrder::East,
    );
    assert_eq!(rows.len(), 2);
    assert_eq!(rows[0].name, "Asia/Tokyo");
    assert_eq!(rows[1].name, "Europe/London");
    for row in &rows {
        assert_eq!(row.hours.len(), 4);
        assert!(row.hours[1].starts_with('|'));
    }
}

#[test]
fn unresolvable_timezone_is_dropped() {
    let (zones, rejected) = get_timezones(vec![
        "Europe/London".to_string(),
        "Mars/Phobos".to_string(),
        "Asia/Tokyo".to_string(),
    ]);
    let names: Vec<&str> = zones.iter().map(|z| z.id().as_str()).collect();
    assert_eq!(names, vec!["Europe/London", "Asia/Tokyo"]);
    assert_eq!(rejected, vec!["Mars/Phobos"]);
}

#[test]
fn empty_timezone_set_yields_empty_rows() {
    let (zones, rejected) = get_timezones(Vec::new());
    assert!(zones.is_empty() && rejected.is_empty());
    let rows = build_rows(zones, NOON, 4, false);
    assert!(rows.is_empty());
}

#[test]
fn date_parses_exactly() {
    assert_eq!(parse_date_str("2024-01-01 12:00"), Some(NOON));
    assert_eq!(parse_date_str("1970-01-01 00:00"), Some(0));
    assert_eq!(parse_date_str("1969-12-31 23:00"), Some(-3600));
    assert_eq!(parse_date_str("2024-02-29 00:00"), Some(1709164800));
    assert_eq!(parse_date_str("0000-01-01 00:00"), Some(-62167219200));
    assert!(parse_date_str("9999-12-31 23:59").is_some());
}

#[test]
fn malformed_dates_are_rejected() {
    assert_eq!(parse_date_str("not-a-date"), None);
    assert_eq!(parse_date_str("2024-13-01 00:00"), None);
    assert_eq!(parse_date_str("2024-02-30 00:00"), None);
    assert_eq!(parse_date_str("2023-02-29 00:00"), None);
    assert_eq!(parse_date_str("2024-01-01 24:00"), None);
    assert_eq!(parse_date_str("2024-01-01 12:60"), None);
    assert_eq!(parse_date_str("2024-1-1 9:00"), None);
    assert_eq!(parse_date_str("2024-01-01  12:00"), None);
    assert_eq!(parse_date_str(""), None);
}

#[test]
fn date_argument_resolution() {
    let (secs, fallback) = get_utc_date(Some("2024-01-01 12:00".to_string()));
    assert_eq!(secs, NOON);
    assert!(!fallback);

    // malformed: falls back to the current instant and flags the fallback
    let (secs, fallback) = get_utc_date(Some("not-a-date".to_string()));
    assert!(fallback);
    assert!(secs > 1704110400); // the clock reads after 2024

    let (_, fallback) = get_utc_date(None);
    assert!(!fallback);
}
