use tzbuddy::regions::{TzError, parse_tz_name, print_timezones};

#[test]
fn splits_region_and_location() {
    let n = parse_tz_name("Europe/London");
    assert_eq!(n.region, "Europe");
    assert_eq!(n.location.as_deref(), Some("London"));

    // only the second segment is the location; deeper segments are dropped
    let n = parse_tz_name("America/Indiana/Knox");
    assert_eq!(n.region, "America");
    assert_eq!(n.location.as_deref(), Some("Indiana"));

    let n = parse_tz_name("UTC");
    assert_eq!(n.region, "UTC");
    assert!(n.location.is_none());
}

#[test]
fn lists_regions() {
    let regions = print_timezones(None).unwrap();
    assert!(regions.iter().any(|r| r == "Europe"));
    assert!(regions.iter().any(|r| r == "America"));
    assert!(regions.iter().any(|r| r == "UTC"));
    // each region appears once
    let europe_count = regions.iter().filter(|r| r.as_str() == "Europe").count();
    assert_eq!(europe_count, 1);
}

#[test]
fn regions_come_out_sorted() {
    let regions = print_timezones(None).unwrap();
    assert!(regions.windows(2).all(|w| w[0] < w[1]));
}

#[test]
fn lists_locations_of_europe() {
    let lines = print_timezones(Some("Europe".to_string())).unwrap();
    assert!(!lines.is_empty());
    assert!(lines.iter().any(|l| l == "Europe/London"));
    assert!(lines.iter().all(|l| l.starts_with("Europe/")));
    assert!(lines.windows(2).all(|w| w[0] < w[1]));
}

#[test]
fn deep_identifiers_collapse_to_second_segment() {
    let lines = print_timezones(Some("America".to_string())).unwrap();
    // the many America/Argentina/... zones stand as one collapsed line
    let argentina = lines.iter().filter(|l| l.as_str() == "America/Argentina").count();
    assert_eq!(argentina, 1);
    assert!(!lines.iter().any(|l| l == "America/Argentina/Buenos_Aires"));
    assert!(lines.iter().any(|l| l == "America/New_York"));
}

#[test]
fn bare_region_lists_itself() {
    let lines = print_timezones(Some("UTC".to_string())).unwrap();
    assert_eq!(lines, vec!["UTC"]);
}

#[test]
fn unknown_region_fails() {
    let res = print_timezones(Some("Atlantis".to_string()));
    match res {
        Err(e) => {
            let TzError::RegionNotFound(region) = &e;
            assert_eq!(region, "Atlantis");
            assert_eq!(e.message(), "Cannot find region Atlantis");
        }
        Ok(_) => panic!("Atlantis should not be a region"),
    }
}
