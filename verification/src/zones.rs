//! Resolved IANA timezones and the trusted boundary to `chrono` /
//! `chrono-tz`.
//!
//! A timezone is carried as a [`Zone`]: the name the user asked for,
//! paired with the `chrono_tz::Tz` value that the name resolved to. All
//! reading of local calendar fields goes through the small trusted
//! wrappers below; everything that can be computed from their results is
//! verified elsewhere in the crate.

use vstd::prelude::*;

verus! {

/// Least Unix-seconds value that `chrono` can represent as a `DateTime`
/// (midnight of January 1st of year -262143).
pub const MIN_INSTANT_SECS: i64 = -8_334_601_228_800;

/// Greatest Unix-seconds value that `chrono` can represent as a `DateTime`
/// (the last second of year 262142).
pub const MAX_INSTANT_SECS: i64 = 8_210_266_876_799;

/// An instant, in Unix seconds, that `chrono` can represent.
pub open spec fn repr_secs(s: int) -> bool {
    MIN_INSTANT_SECS <= s <= MAX_INSTANT_SECS
}

/// An instant far enough from the representable edge that shifting it by
/// any timezone offset (always below one day in magnitude) stays
/// representable, so local calendar fields can be read for it in any
/// timezone.
pub open spec fn tz_safe(s: int) -> bool {
    MIN_INSTANT_SECS + 86400 <= s <= MAX_INSTANT_SECS - 86400
}

#[verifier::external_type_specification]
#[verifier::external_body]
pub struct ExTz(chrono_tz::Tz);

/// Whether `chrono-tz` resolves `name`: exactly the names on which
/// `str::parse::<chrono_tz::Tz>` succeeds. The parse is a pure lookup of
/// the name in a fixed table, so this is a function of the name alone.
pub uninterp spec fn tz_known(name: Seq<char>) -> bool;

/// Count of the calendar day (days since December 31st of year 0, so
/// January 1st of year 1 is day 1) that the instant `secs` falls on, read
/// on the wall clock of the timezone named `zone`. Names the result of
/// `chrono::Datelike::num_days_from_ce` after conversion into that
/// timezone; the timezone database is fixed at build time, so this is a
/// function of the name and the instant alone. Comparing two such counts
/// compares full local calendar dates, not day-of-month numbers.
pub uninterp spec fn local_date_num_of(zone: Seq<char>, secs: int) -> int;

/// Hour (0 to 23) of the instant `secs` read on the wall clock of the
/// timezone named `zone`. Names the result of `chrono::Timelike::hour`
/// after conversion into that timezone.
pub uninterp spec fn local_hour_of(zone: Seq<char>, secs: int) -> int;

/// The instant `secs` converted to the wall clock of the timezone named
/// `zone` and then re-read as if that wall-clock time were UTC: the "naive
/// local timestamp" used as the rank key for cross-timezone ordering.
/// Names the result of chrono's `naive_local().and_utc().timestamp()`.
pub uninterp spec fn local_key_of(zone: Seq<char>, secs: int) -> int;

/// A resolved IANA timezone: the user-supplied name together with the
/// `chrono_tz::Tz` value it resolved to. Zones are only created by
/// [`parse_zone`], so the timezone value always corresponds to the name;
/// the trusted wrappers below rely on that correspondence.
pub struct Zone {
    id: String,
    tz: chrono_tz::Tz,
}

impl View for Zone {
    type V = Seq<char>;

    closed spec fn view(&self) -> Seq<char> {
        self.id@
    }
}

impl Zone {
    /// The name this zone was resolved from.
    pub fn id(&self) -> (r: &String)
        ensures
            r@ == self@,
    {
        &self.id
    }

    /// The resolved `chrono_tz` value, for callers outside the library
    /// that hand it back to chrono (nothing can be stated of an opaque
    /// timezone value).
    pub fn tz(&self) -> &chrono_tz::Tz {
        &self.tz
    }
}

/// Relies on `str::parse::<chrono_tz::Tz>` (chrono-tz's `FromStr`): a pure
/// lookup that succeeds exactly on the names in chrono-tz's table.
#[verifier::external_body]
pub(crate) fn parse_zone(name: &str) -> (r: Option<Zone>)
    ensures
        r is Some <==> tz_known(name@),
        r matches Some(z) ==> z@ == name@,
{
    match name.parse::<chrono_tz::Tz>() {
        Ok(tz) => Some(Zone { id: name.to_string(), tz }),
        Err(_) => None,
    }
}

/// Relies on `chrono::DateTime::from_timestamp` (total on the representable
/// range, kept by `tz_safe`), `DateTime::with_timezone` and
/// `chrono::Datelike::num_days_from_ce`: the day count of the instant's
/// local calendar date on the zone's wall clock.
#[verifier::external_body]
pub(crate) fn local_date_num(z: &Zone, secs: i64) -> (d: i32)
    requires
        tz_safe(secs as int),
    ensures
        d as int == local_date_num_of(z@, secs as int),
{
    let dt = chrono::DateTime::<chrono::Utc>::from_timestamp(secs, 0).unwrap();
    chrono::Datelike::num_days_from_ce(&dt.with_timezone(&z.tz))
}

/// Relies on `chrono::DateTime::from_timestamp`, `DateTime::with_timezone`
/// and `chrono::Timelike::hour`: the hour, from 0 to 23, of the instant on
/// the zone's wall clock.
#[verifier::external_body]
pub(crate) fn local_hour(z: &Zone, secs: i64) -> (h: u32)
    requires
        tz_safe(secs as int),
    ensures
        h as int == local_hour_of(z@, secs as int),
        h < 24,
{
    let dt = chrono::DateTime::<chrono::Utc>::from_timestamp(secs, 0).unwrap();
    chrono::Timelike::hour(&dt.with_timezone(&z.tz))
}

/// Relies on `chrono::DateTime::from_timestamp`, `DateTime::with_timezone`,
/// `DateTime::naive_local` (total away from the representable edge, kept by
/// `tz_safe`) and `NaiveDateTime::and_utc().timestamp()`: the zone's
/// wall-clock reading of the instant collapsed back to a raw timestamp.
#[verifier::external_body]
pub(crate) fn local_key(z: &Zone, secs: i64) -> (k: i64)
    requires
        tz_safe(secs as int),
    ensures
        k as int == local_key_of(z@, secs as int),
{
    let dt = chrono::DateTime::<chrono::Utc>::from_timestamp(secs, 0).unwrap();
    dt.with_timezone(&z.tz).naive_local().and_utc().timestamp()
}

/// Relies on `chrono::Utc::now`: the current instant. Nothing can be said
/// of which instant comes back, but any `DateTime` it returns has its
/// timestamp inside chrono's representable bounds.
#[verifier::external_body]
pub(crate) fn now_secs() -> (r: i64)
    ensures
        repr_secs(r as int),
{
    chrono::Utc::now().timestamp()
}

/// Relies on `chrono_tz::TZ_VARIANTS` and `chrono_tz::Tz::name`: the names
/// of every timezone in chrono-tz's table. The variants' names are
/// pairwise distinct and are exactly the keys of the parse table, so the
/// list holds every name that resolves, each once, and nothing else.
#[verifier::external_body]
pub(crate) fn all_zone_names() -> (r: Vec<String>)
    ensures
        r@.len() > 0,
        forall|i: int| 0 <= i < r@.len() ==> tz_known(#[trigger] r@[i]@),
        forall|i: int, j: int| 0 <= i < j < r@.len() ==> r@[i]@ != r@[j]@,
        forall|n: Seq<char>| #[trigger] tz_known(n) ==> exists|i: int|
            0 <= i < r@.len() && r@[i]@ == n,
{
    chrono_tz::TZ_VARIANTS.iter().map(|tz| tz.name().to_string()).collect()
}

/// The subsequence of `names` that resolve as timezones, in order of
/// first request, each name once: a repeated request names the same
/// timezone and yields one row, as a map keyed by the name would.
pub open spec fn known_names(names: Seq<Seq<char>>) -> Seq<Seq<char>>
    decreases names.len(),
{
    if names.len() == 0 {
        Seq::empty()
    } else {
        let rest = known_names(names.drop_last());
        if tz_known(names.last()) && !rest.contains(names.last()) {
            rest.push(names.last())
        } else {
            rest
        }
    }
}

/// The subsequence of `names` that do not resolve, in order.
pub open spec fn unknown_names(names: Seq<Seq<char>>) -> Seq<Seq<char>>
    decreases names.len(),
{
    if names.len() == 0 {
        Seq::empty()
    } else {
        let rest = unknown_names(names.drop_last());
        if tz_known(names.last()) {
            rest
        } else {
            rest.push(names.last())
        }
    }
}

fn contains_zone(zones: &Vec<Zone>, name: &String) -> (b: bool)
    ensures
        b == zones@.map_values(|z: Zone| z@).contains(name@),
{
    let mut i: usize = 0;
    while i < zones.len()
        invariant
            i <= zones@.len(),
            forall|k: int| 0 <= k < i ==> zones@[k]@ != name@,
        decreases zones@.len() - i,
    {
        if zones[i].id().eq(name) {
            proof {
                assert(zones@.map_values(|z: Zone| z@)[i as int] == name@);
            }
            return true;
        }
        i = i + 1;
    }
    proof {
        let m = zones@.map_values(|z: Zone| z@);
        assert forall|k: int| 0 <= k < m.len() implies #[trigger] m[k] != name@ by {
            assert(zones@[k]@ != name@);
        }
        assert(!m.contains(name@));
    }
    false
}

/// Resolves each requested name against the IANA database. Names that
/// resolve become zones, in order of first request, one per distinct
/// name (a repeated request adds no second row); names that do not
/// resolve are returned separately, one entry per occurrence, so the
/// caller can report them, and do not abort the batch.
pub fn get_timezones(cmdline_tzs: Vec<String>) -> (r: (Vec<Zone>, Vec<String>))
    ensures
        r.0@.map_values(|z: Zone| z@) == known_names(cmdline_tzs@.map_values(|s: String| s@)),
        r.1@.map_values(|s: String| s@) == unknown_names(cmdline_tzs@.map_values(|s: String| s@)),
{
    let ghost all = cmdline_tzs@.map_values(|s: String| s@);
    let mut zones: Vec<Zone> = Vec::new();
    let mut rejected: Vec<String> = Vec::new();
    let mut i: usize = 0;
    while i < cmdline_tzs.len()
        invariant
            i <= cmdline_tzs@.len(),
            all == cmdline_tzs@.map_values(|s: String| s@),
            zones@.map_values(|z: Zone| z@) == known_names(all.take(i as int)),
            rejected@.map_values(|s: String| s@) == unknown_names(all.take(i as int)),
        decreases cmdline_tzs@.len() - i,
    {
        let name = cmdline_tzs[i].clone();
        proof {
            assert(all.take(i + 1).drop_last() =~= all.take(i as int));
            assert(all.take(i + 1).last() == name@);
        }
        match parse_zone(name.as_str()) {
            Some(z) => {
                if !contains_zone(&zones, &name) {
                    zones.push(z);
                }
                proof {
                    assert(zones@.map_values(|z: Zone| z@) =~= known_names(all.take(i + 1)));
                    assert(rejected@.map_values(|s: String| s@) =~= unknown_names(all.take(i + 1)));
                }
            },
            None => {
                rejected.push(name);
                proof {
                    assert(zones@.map_values(|z: Zone| z@) =~= known_names(all.take(i + 1)));
                    assert(rejected@.map_values(|s: String| s@) =~= unknown_names(all.take(i + 1)));
                }
            },
        }
        i = i + 1;
    }
    proof {
        assert(all.take(cmdline_tzs@.len() as int) =~= all);
    }
    (zones, rejected)
}

} // verus!
