//! The region enumerator: listing the known IANA regions (the part of a
//! timezone identifier before the first `/`) and the locations under a
//! given region. A location is the second path segment alone, so deeper
//! identifiers collapse: `America/Argentina/Buenos_Aires` and
//! `America/Argentina/Cordoba` both stand under `America` as the single
//! line `America/Argentina`. A bare identifier with no `/` (such as
//! `UTC`) is a region with no location and is listed as the region
//! alone. Both listings come out in ascending lexicographic order.

use vstd::prelude::*;
use vstd::relations::sorted_by;
use vstd::string::{StrSliceExecFns, StringExecFns};
use crate::table::lemma_map_values_multiset;
use crate::zones::{all_zone_names, tz_known};

verus! {

/// Index of the first `/` in `s`, or the length of `s` when it has none.
pub open spec fn first_slash(s: Seq<char>) -> int
    decreases s.len(),
{
    if s.len() == 0 {
        0
    } else if s[0] == '/' {
        0
    } else {
        1 + first_slash(s.drop_first())
    }
}

/// The characterization of `first_slash`: everything before it is not a
/// slash, and it points at a slash unless there is none.
pub proof fn lemma_first_slash(s: Seq<char>)
    ensures
        0 <= first_slash(s) <= s.len(),
        forall|k: int| 0 <= k < first_slash(s) ==> s[k] != '/',
        first_slash(s) < s.len() ==> s[first_slash(s)] == '/',
    decreases s.len(),
{
    if s.len() > 0 && s[0] != '/' {
        lemma_first_slash(s.drop_first());
        assert forall|k: int| 0 <= k < first_slash(s) implies s[k] != '/' by {
            if k > 0 {
                assert(s.drop_first()[k - 1] != '/');
            }
        }
    }
}

/// The region part of a timezone identifier: what stands before the
/// first `/`, or the whole identifier when it has none.
pub open spec fn region_of(s: Seq<char>) -> Seq<char> {
    s.take(first_slash(s))
}

/// The location part of a timezone identifier: the second path segment
/// alone (between the first `/` and the next `/` or the end), absent
/// when the identifier has no `/`. Segments past the second are dropped.
pub open spec fn location_of(s: Seq<char>) -> Option<Seq<char>> {
    if first_slash(s) == s.len() {
        Option::None
    } else {
        let tail = s.skip(first_slash(s) + 1);
        Option::Some(tail.take(first_slash(tail)))
    }
}

/// The listing line an identifier contributes under its region: the
/// region and location joined with `/`, or the bare region when there is
/// no location.
pub open spec fn line_of(s: Seq<char>) -> Seq<char> {
    match location_of(s) {
        Option::None => region_of(s),
        Option::Some(l) => region_of(s) + seq!['/'] + l,
    }
}

/// A timezone identifier split into its region and optional location
/// (the second path segment alone).
pub struct TzName {
    pub region: String,
    pub location: Option<String>,
}

/// Splits a timezone identifier at its first `/`, keeping as location
/// only the segment up to the next `/`.
pub fn parse_tz_name(s: &str) -> (r: TzName)
    ensures
        r.region@ == region_of(s@),
        r.location is Some <==> location_of(s@) is Some,
        r.location matches Some(l) ==> location_of(s@) == Option::Some(l@),
{
    proof {
        lemma_first_slash(s@);
    }
    let n = s.unicode_len();
    let mut slash: Option<usize> = None;
    let mut i: usize = 0;
    while slash.is_none() && i < n
        invariant
            n == s@.len(),
            i <= n,
            slash is None ==> forall|k: int| 0 <= k < i ==> s@[k] != '/',
            slash matches Some(p) ==> p < n && s@[p as int] == '/' && (forall|k: int|
                0 <= k < p ==> s@[k] != '/'),
        decreases n - i + (if slash is None {
            1int
        } else {
            0int
        }),
    {
        if s.get_char(i) == '/' {
            slash = Some(i);
        } else {
            i = i + 1;
        }
    }
    match slash {
        Some(p) => {
            proof {
                assert(first_slash(s@) == p);
            }
            let region = String::from_str(s.substring_char(0, p));
            let mut slash2: Option<usize> = None;
            let mut k: usize = p + 1;
            while slash2.is_none() && k < n
                invariant
                    n == s@.len(),
                    p < n,
                    p + 1 <= k <= n,
                    slash2 is None ==> forall|m: int| p + 1 <= m < k ==> s@[m] != '/',
                    slash2 matches Some(q) ==> p + 1 <= q < n && s@[q as int] == '/' && (forall|
                        m: int,
                    |
                        p + 1 <= m < q ==> s@[m] != '/'),
                decreases n - k + (if slash2 is None {
                    1int
                } else {
                    0int
                }),
            {
                if s.get_char(k) == '/' {
                    slash2 = Some(k);
                } else {
                    k = k + 1;
                }
            }
            let q = match slash2 {
                Some(q) => q,
                None => n,
            };
            proof {
                let tail = s@.skip(p + 1);
                lemma_first_slash(tail);
                assert forall|m: int| 0 <= m < q - p - 1 implies tail[m] != '/' by {
                    assert(s@[p + 1 + m] != '/');
                }
                if q < n {
                    assert(tail[q - p - 1] == s@[q as int]);
                }
                assert(first_slash(tail) == q - p - 1);
            }
            let location = String::from_str(s.substring_char(p + 1, q));
            proof {
                assert(region@ =~= region_of(s@));
                assert(location@ =~= s@.skip(p + 1).take(first_slash(s@.skip(p + 1))));
            }
            TzName { region, location: Some(location) }
        },
        None => {
            proof {
                assert(first_slash(s@) == s@.len());
                assert(region_of(s@) =~= s@);
            }
            TzName { region: String::from_str(s), location: None }
        },
    }
}

/// The regions of `names` in order of first appearance, each once.
pub open spec fn regions_of(names: Seq<Seq<char>>) -> Seq<Seq<char>>
    decreases names.len(),
{
    if names.len() == 0 {
        Seq::empty()
    } else {
        let rest = regions_of(names.drop_last());
        if rest.contains(region_of(names.last())) {
            rest
        } else {
            rest.push(region_of(names.last()))
        }
    }
}

/// The listing lines of `names` under `region`, in order of first
/// appearance, each line once: identifiers of that region contribute
/// their region/location line, collapsed to the second segment.
pub open spec fn region_lines(names: Seq<Seq<char>>, region: Seq<char>) -> Seq<Seq<char>>
    decreases names.len(),
{
    if names.len() == 0 {
        Seq::empty()
    } else {
        let rest = region_lines(names.drop_last(), region);
        if region_of(names.last()) == region && !rest.contains(line_of(names.last())) {
            rest.push(line_of(names.last()))
        } else {
            rest
        }
    }
}

/// Some identifier in `names` has the region `reg`.
pub open spec fn is_region_in(names: Seq<Seq<char>>, reg: Seq<char>) -> bool {
    exists|i: int| 0 <= i < names.len() && region_of(#[trigger] names[i]) == reg
}

/// Some known timezone identifier has the region `reg`.
pub open spec fn known_region(reg: Seq<char>) -> bool {
    exists|n: Seq<char>| #[trigger] tz_known(n) && region_of(n) == reg
}

/// Lexicographic order on text, by character value: the order the
/// listings come out in.
pub open spec fn str_lt(a: Seq<char>, b: Seq<char>) -> bool
    decreases a.len(),
{
    if b.len() == 0 {
        false
    } else if a.len() == 0 {
        true
    } else if a[0] != b[0] {
        (a[0] as int) < (b[0] as int)
    } else {
        str_lt(a.drop_first(), b.drop_first())
    }
}

/// Non-strict lexicographic order.
pub open spec fn str_le(a: Seq<char>, b: Seq<char>) -> bool {
    !str_lt(b, a)
}

proof fn lemma_str_lt_irrefl(a: Seq<char>)
    ensures
        !str_lt(a, a),
    decreases a.len(),
{
    if a.len() > 0 {
        lemma_str_lt_irrefl(a.drop_first());
    }
}

proof fn lemma_str_lt_connected(a: Seq<char>, b: Seq<char>)
    requires
        a != b,
    ensures
        str_lt(a, b) || str_lt(b, a),
    decreases a.len(),
{
    if a.len() == 0 && b.len() == 0 {
        assert(a =~= b);
    } else if a.len() > 0 && b.len() > 0 && a[0] == b[0] {
        if a.drop_first() == b.drop_first() {
            assert(a.drop_first().len() == b.drop_first().len());
            assert(a.len() == b.len());
            assert(a =~= b) by {
                assert forall|k: int| 0 <= k < a.len() implies a[k] == b[k] by {
                    if k > 0 {
                        assert(a[k] == a.drop_first()[k - 1]);
                        assert(b[k] == b.drop_first()[k - 1]);
                    }
                }
            }
        } else {
            lemma_str_lt_connected(a.drop_first(), b.drop_first());
        }
    }
}

proof fn lemma_str_lt_trans(a: Seq<char>, b: Seq<char>, c: Seq<char>)
    requires
        str_lt(a, b),
        str_lt(b, c),
    ensures
        str_lt(a, c),
    decreases a.len(),
{
    if a.len() > 0 && b.len() > 0 && c.len() > 0 && a[0] == b[0] && b[0] == c[0] {
        lemma_str_lt_trans(a.drop_first(), b.drop_first(), c.drop_first());
    }
}

proof fn lemma_str_lt_asym(a: Seq<char>, b: Seq<char>)
    requires
        str_lt(a, b),
    ensures
        !str_lt(b, a),
{
    if str_lt(b, a) {
        lemma_str_lt_trans(a, b, a);
        lemma_str_lt_irrefl(a);
    }
}

proof fn lemma_str_le_trans(a: Seq<char>, b: Seq<char>, c: Seq<char>)
    requires
        str_le(a, b),
        str_le(b, c),
    ensures
        str_le(a, c),
{
    if str_lt(c, a) {
        if b != c {
            lemma_str_lt_connected(b, c);
            lemma_str_lt_trans(b, c, a);
        }
    }
}

fn str_lt_exec(a: &str, b: &str) -> (r: bool)
    ensures
        r == str_lt(a@, b@),
{
    let an = a.unicode_len();
    let bn = b.unicode_len();
    let mut i: usize = 0;
    proof {
        assert(a@.skip(0) =~= a@);
        assert(b@.skip(0) =~= b@);
    }
    while i < an && i < bn
        invariant
            i <= an,
            i <= bn,
            an == a@.len(),
            bn == b@.len(),
            str_lt(a@, b@) == str_lt(a@.skip(i as int), b@.skip(i as int)),
        decreases an - i,
    {
        let ca = a.get_char(i);
        let cb = b.get_char(i);
        if ca != cb {
            proof {
                assert(str_lt(a@.skip(i as int), b@.skip(i as int)) == ((ca as int) < (
                cb as int)));
            }
            return (ca as u32) < (cb as u32);
        }
        proof {
            assert(a@.skip(i as int).drop_first() =~= a@.skip(i + 1));
            assert(b@.skip(i as int).drop_first() =~= b@.skip(i + 1));
        }
        i = i + 1;
    }
    proof {
        assert(str_lt(a@.skip(i as int), b@.skip(i as int)) == (an < bn));
    }
    an < bn
}

/// The order the line sort uses, over the lines' text.
pub open spec fn line_le() -> spec_fn(String, String) -> bool {
    |x: String, y: String| str_le(x@, y@)
}

fn line_le_exec(a: &String, b: &String) -> (r: bool)
    ensures
        r == line_le()(*a, *b),
{
    !str_lt_exec(b.as_str(), a.as_str())
}

fn sort_lines(v: &mut Vec<String>)
    ensures
        final(v)@.len() == old(v)@.len(),
        final(v)@.to_multiset() == old(v)@.to_multiset(),
        sorted_by(final(v)@, line_le()),
{
    broadcast use vstd::seq_lib::group_to_multiset_ensures;
    broadcast use vstd::multiset::group_multiset_axioms;

    let ghost leq = line_le();
    if v.len() <= 1 {
        return;
    }
    let mut i: usize = 1;
    while i < v.len()
        invariant
            leq == line_le(),
            1 <= i <= v@.len(),
            v@.len() == old(v)@.len(),
            v@.to_multiset() == old(v)@.to_multiset(),
            sorted_by(v@.take(i as int), leq),
        decreases v@.len() - i,
    {
        let mut j: usize = i;
        let mut moving = true;
        proof {
            assert forall|a: int, b: int| 0 <= a < b <= i && a != j && b != j implies leq(
                #[trigger] v@[a],
                #[trigger] v@[b],
            ) by {
                assert(leq(v@.take(i as int)[a], v@.take(i as int)[b]));
            }
        }
        while moving && j > 0
            invariant
                leq == line_le(),
                0 <= j <= i < v@.len(),
                v@.len() == old(v)@.len(),
                v@.to_multiset() == old(v)@.to_multiset(),
                forall|a: int, b: int|
                    0 <= a < b <= i && a != j && b != j ==> leq(#[trigger] v@[a], #[trigger] v@[b]),
                forall|b: int| j < b <= i ==> leq(v@[j as int], #[trigger] v@[b]),
                !moving && j > 0 ==> leq(v@[j as int - 1], v@[j as int]),
            decreases j + (if moving {
                1int
            } else {
                0int
            }),
        {
            if line_le_exec(&v[j - 1], &v[j]) {
                moving = false;
            } else {
                let ghost pre = v@;
                let x = v.remove(j);
                v.insert(j - 1, x);
                proof {
                    assert(v@ =~= pre.update(j as int - 1, pre[j as int]).update(
                        j as int,
                        pre[j as int - 1],
                    ));
                    vstd::seq_lib::to_multiset_remove::<String>(pre, j as int);
                    vstd::seq_lib::to_multiset_insert(pre.remove(j as int), j as int - 1, x);
                    vstd::seq_lib::to_multiset_contains::<String>(pre, pre[j as int]);
                    assert(pre.contains(pre[j as int]));
                    assert(pre.to_multiset().remove(pre[j as int]).insert(pre[j as int])
                        =~= pre.to_multiset());
                    assert(v@.to_multiset() == pre.to_multiset());
                    // the moved element stays below everything after it
                    lemma_str_lt_asym(pre[j as int]@, pre[j as int - 1]@);
                    assert(leq(pre[j as int], pre[j as int - 1]));
                    assert forall|b: int| j - 1 < b <= i implies leq(
                        v@[j as int - 1],
                        #[trigger] v@[b],
                    ) by {
                        if b == j {
                            assert(v@[b] == pre[j as int - 1]);
                        } else {
                            assert(v@[b] == pre[b]);
                        }
                    }
                    // the rest keeps its order
                    assert forall|a: int, b: int|
                        0 <= a < b <= i && a != j - 1 && b != j - 1 implies leq(
                        #[trigger] v@[a],
                        #[trigger] v@[b],
                    ) by {
                        if b == j {
                            assert(v@[b] == pre[j as int - 1]);
                            if a < j - 1 {
                                assert(leq(pre[a], pre[j as int - 1]));
                            }
                        } else {
                            assert(v@[b] == pre[b]);
                            if a == j {
                                assert(v@[a] == pre[j as int - 1]);
                            } else {
                                assert(v@[a] == pre[a]);
                            }
                        }
                    }
                }
                j = j - 1;
            }
        }
        proof {
            assert forall|a: int, b: int| 0 <= a < b <= i implies leq(
                #[trigger] v@[a],
                #[trigger] v@[b],
            ) by {
                if a == j {
                    assert(leq(v@[j as int], v@[b]));
                } else if b == j {
                    assert(j > 0);
                    assert(leq(v@[j as int - 1], v@[j as int]));
                    if a < j - 1 {
                        assert(leq(v@[a], v@[j as int - 1]));
                        lemma_str_le_trans(v@[a]@, v@[j as int - 1]@, v@[j as int]@);
                    }
                }
            }
            assert(sorted_by(v@.take(i as int + 1), leq));
        }
        i = i + 1;
    }
    proof {
        assert(v@.take(v@.len() as int) =~= v@);
    }
}

/// The text `line` is the collapsed region/location line of some known
/// identifier of region `reg`.
pub open spec fn known_line(line: Seq<char>, reg: Seq<char>) -> bool {
    exists|n: Seq<char>|
        #![trigger line_of(n)]
        tz_known(n) && region_of(n) == reg && line == line_of(n)
}

/// What the location listing for region `reg` must hold: each line the
/// collapsed region/location line of some known identifier of that
/// region, the line of every such identifier, in strictly ascending
/// order (so each line once).
pub open spec fn location_listing_ok(lines: Seq<Seq<char>>, reg: Seq<char>) -> bool {
    &&& forall|k: int| 0 <= k < lines.len() ==> known_line(#[trigger] lines[k], reg)
    &&& forall|n: Seq<char>| #[trigger] tz_known(n) && region_of(n) == reg ==> lines.contains(
        line_of(n),
    )
    &&& forall|k1: int, k2: int| 0 <= k1 < k2 < lines.len() ==> str_lt(lines[k1], lines[k2])
}

/// What the region listing must hold: only regions of known identifiers,
/// the region of every known identifier, in strictly ascending order (so
/// each region once).
pub open spec fn region_listing_ok(lines: Seq<Seq<char>>) -> bool {
    &&& forall|k: int| 0 <= k < lines.len() ==> known_region(#[trigger] lines[k])
    &&& forall|n: Seq<char>| #[trigger] tz_known(n) ==> lines.contains(region_of(n))
    &&& forall|k1: int, k2: int| 0 <= k1 < k2 < lines.len() ==> str_lt(lines[k1], lines[k2])
}

/// The text `line` is the collapsed line of some identifier of region
/// `reg` among `names`.
spec fn line_from(names: Seq<Seq<char>>, reg: Seq<char>, line: Seq<char>) -> bool {
    exists|i: int|
        #![trigger names[i]]
        0 <= i < names.len() && region_of(names[i]) == reg && line == line_of(names[i])
}

/// `region_lines` holds exactly the collapsed lines of the identifiers
/// with the asked-for region, each line once.
proof fn lemma_region_lines_props(names: Seq<Seq<char>>, reg: Seq<char>)
    ensures
        forall|k: int|
            0 <= k < region_lines(names, reg).len() ==> line_from(
                names,
                reg,
                #[trigger] region_lines(names, reg)[k],
            ),
        forall|i: int|
            0 <= i < names.len() && region_of(#[trigger] names[i]) == reg ==> region_lines(
                names,
                reg,
            ).contains(line_of(names[i])),
        forall|k1: int, k2: int|
            0 <= k1 < k2 < region_lines(names, reg).len() ==> region_lines(names, reg)[k1]
                != region_lines(names, reg)[k2],
    decreases names.len(),
{
    if names.len() > 0 {
        lemma_region_lines_props(names.drop_last(), reg);
        let rest = region_lines(names.drop_last(), reg);
        let lines = region_lines(names, reg);
        assert forall|k: int| 0 <= k < lines.len() implies line_from(
            names,
            reg,
            #[trigger] lines[k],
        ) by {
            if k < rest.len() {
                assert(lines[k] == rest[k]);
                assert(line_from(names.drop_last(), reg, rest[k]));
                let w = choose|w: int|
                    #![trigger names.drop_last()[w]]
                    0 <= w < names.drop_last().len() && region_of(names.drop_last()[w]) == reg
                        && rest[k] == line_of(names.drop_last()[w]);
                assert(names[w] == names.drop_last()[w]);
                assert(line_from(names, reg, lines[k]));
            } else {
                assert(lines[k] == line_of(names.last()));
                assert(names[names.len() - 1] == names.last());
                assert(line_from(names, reg, lines[k]));
            }
        }
        assert forall|i: int|
            0 <= i < names.len() && region_of(#[trigger] names[i]) == reg implies lines.contains(
            line_of(names[i]),
        ) by {
            if i < names.len() - 1 {
                assert(names.drop_last()[i] == names[i]);
                assert(rest.contains(line_of(names[i])));
                let w = choose|w: int| 0 <= w < rest.len() && rest[w] == line_of(names[i]);
                assert(lines[w] == line_of(names[i]));
            } else {
                if rest.contains(line_of(names.last())) {
                    let w = choose|w: int| 0 <= w < rest.len() && rest[w] == line_of(names.last());
                    assert(lines[w] == line_of(names.last()));
                } else {
                    assert(lines[lines.len() - 1] == line_of(names.last()));
                }
            }
        }
        assert forall|k1: int, k2: int| 0 <= k1 < k2 < lines.len() implies lines[k1]
            != lines[k2] by {
            if k2 < rest.len() {
                assert(lines[k1] == rest[k1] && lines[k2] == rest[k2]);
            } else {
                assert(lines[k2] == line_of(names.last()) && !rest.contains(
                    line_of(names.last()),
                ));
                assert(lines[k1] == rest[k1]);
                assert(rest.contains(rest[k1]));
            }
        }
    }
}

/// `regions_of` holds exactly the regions occurring in `names`: every
/// line is the region of some identifier, the region of every identifier
/// is among the lines, and no region repeats.
proof fn lemma_regions_of_props(names: Seq<Seq<char>>)
    ensures
        forall|k: int|
            0 <= k < regions_of(names).len() ==> is_region_in(
                names,
                #[trigger] regions_of(names)[k],
            ),
        forall|i: int|
            0 <= i < names.len() ==> regions_of(names).contains(region_of(#[trigger] names[i])),
        forall|k1: int, k2: int|
            0 <= k1 < k2 < regions_of(names).len() ==> regions_of(names)[k1] != regions_of(
                names,
            )[k2],
    decreases names.len(),
{
    if names.len() > 0 {
        lemma_regions_of_props(names.drop_last());
        let rest = regions_of(names.drop_last());
        let out = regions_of(names);
        let last_reg = region_of(names.last());
        assert forall|k: int| 0 <= k < out.len() implies is_region_in(
            names,
            #[trigger] out[k],
        ) by {
            if k < rest.len() {
                assert(out[k] == rest[k]);
                assert(is_region_in(names.drop_last(), rest[k]));
                let w = choose|w: int|
                    0 <= w < names.drop_last().len() && region_of(
                        #[trigger] names.drop_last()[w],
                    ) == rest[k];
                assert(region_of(names[w]) == rest[k]);
            } else {
                assert(out[k] == last_reg);
                assert(region_of(names[names.len() - 1]) == last_reg);
            }
        }
        assert forall|i: int| 0 <= i < names.len() implies out.contains(
            region_of(#[trigger] names[i]),
        ) by {
            if i < names.len() - 1 {
                assert(names.drop_last()[i] == names[i]);
                assert(rest.contains(region_of(names[i])));
                let w = choose|w: int| 0 <= w < rest.len() && rest[w] == region_of(names[i]);
                assert(out[w] == region_of(names[i]));
            } else {
                if rest.contains(last_reg) {
                    let w = choose|w: int| 0 <= w < rest.len() && rest[w] == last_reg;
                    assert(out[w] == last_reg);
                } else {
                    assert(out[out.len() - 1] == last_reg);
                }
            }
        }
        assert forall|k1: int, k2: int| 0 <= k1 < k2 < out.len() implies out[k1] != out[k2] by {
            if k2 < rest.len() {
                assert(out[k1] == rest[k1] && out[k2] == rest[k2]);
            } else {
                assert(out[k2] == last_reg && !rest.contains(last_reg));
                assert(out[k1] == rest[k1]);
                assert(rest.contains(rest[k1]));
            }
        }
    }
}

fn contains_string(v: &Vec<String>, s: &String) -> (b: bool)
    ensures
        b == v@.map_values(|x: String| x@).contains(s@),
{
    let mut i: usize = 0;
    while i < v.len()
        invariant
            i <= v@.len(),
            forall|k: int| 0 <= k < i ==> v@[k]@ != s@,
        decreases v@.len() - i,
    {
        if v[i].eq(s) {
            proof {
                assert(v@.map_values(|x: String| x@)[i as int] == s@);
            }
            return true;
        }
        i = i + 1;
    }
    proof {
        let m = v@.map_values(|x: String| x@);
        assert forall|k: int| 0 <= k < m.len() implies #[trigger] m[k] != s@ by {
            assert(v@[k]@ != s@);
        }
        assert(!m.contains(s@));
    }
    false
}

/// The known regions among `names`, each once, in ascending order.
pub fn list_regions(names: &Vec<String>) -> (r: Vec<String>)
    ensures
        r@.map_values(|s: String| s@).to_multiset() == regions_of(
            names@.map_values(|s: String| s@),
        ).to_multiset(),
        sorted_by(r@, line_le()),
{
    let ghost all = names@.map_values(|s: String| s@);
    let mut out: Vec<String> = Vec::new();
    let mut i: usize = 0;
    while i < names.len()
        invariant
            i <= names@.len(),
            all == names@.map_values(|s: String| s@),
            out@.map_values(|s: String| s@) == regions_of(all.take(i as int)),
        decreases names@.len() - i,
    {
        proof {
            assert(all.take(i + 1).drop_last() =~= all.take(i as int));
            assert(all.take(i + 1).last() == names@[i as int]@);
        }
        let name = parse_tz_name(names[i].as_str());
        if !contains_string(&out, &name.region) {
            out.push(name.region);
            proof {
                assert(out@.map_values(|s: String| s@) =~= regions_of(all.take(i + 1)));
            }
        } else {
            proof {
                assert(out@.map_values(|s: String| s@) =~= regions_of(all.take(i + 1)));
            }
        }
        i = i + 1;
    }
    proof {
        assert(all.take(names@.len() as int) =~= all);
    }
    let ghost built = out@;
    sort_lines(&mut out);
    proof {
        lemma_map_values_multiset(out@, built, |s: String| s@);
    }
    out
}

/// Failures of the region enumerator.
#[derive(Debug)]
pub enum TzError {
    RegionNotFound(String),
}

/// The message an error carries.
pub open spec fn error_message(e: TzError) -> Seq<char> {
    match e {
        TzError::RegionNotFound(region) => "Cannot find region "@ + region@,
    }
}

impl TzError {
    /// Renders the error for the user.
    pub fn message(&self) -> (r: String)
        ensures
            r@ == error_message(*self),
    {
        match self {
            TzError::RegionNotFound(region) => {
                let mut out = String::from_str("Cannot find region ");
                out.append(region.as_str());
                out
            },
        }
    }
}

/// The listing lines under `region`, each once, in ascending order: the
/// collapsed region/location lines of the identifiers of that region, a
/// location-less identifier standing as the region alone. Fails with
/// `RegionNotFound` exactly when no identifier has that region.
pub fn list_locations(names: &Vec<String>, region: String) -> (r: Result<Vec<String>, TzError>)
    ensures
        r matches Ok(lines) ==> lines@.map_values(|s: String| s@).to_multiset() == region_lines(
            names@.map_values(|s: String| s@),
            region@,
        ).to_multiset() && lines@.len() > 0 && sorted_by(lines@, line_le()),
        r is Err <==> region_lines(names@.map_values(|s: String| s@), region@).len() == 0,
        r matches Err(e) ==> e == TzError::RegionNotFound(region),
{
    let ghost all = names@.map_values(|s: String| s@);
    let mut out: Vec<String> = Vec::new();
    let mut i: usize = 0;
    while i < names.len()
        invariant
            i <= names@.len(),
            all == names@.map_values(|s: String| s@),
            out@.map_values(|s: String| s@) == region_lines(all.take(i as int), region@),
        decreases names@.len() - i,
    {
        proof {
            assert(all.take(i + 1).drop_last() =~= all.take(i as int));
            assert(all.take(i + 1).last() == names@[i as int]@);
        }
        let parsed = parse_tz_name(names[i].as_str());
        if parsed.region.eq(&region) {
            let mut line = parsed.region;
            match parsed.location {
                Some(loc) => {
                    proof {
                        reveal_strlit("/");
                        assert("/"@ =~= seq!['/']);
                    }
                    line.append("/");
                    line.append(loc.as_str());
                },
                None => {},
            }
            proof {
                assert(line@ =~= line_of(all[i as int]));
            }
            if !contains_string(&out, &line) {
                out.push(line);
            }
            proof {
                assert(out@.map_values(|s: String| s@) =~= region_lines(
                    all.take(i + 1),
                    region@,
                ));
            }
        } else {
            proof {
                assert(out@.map_values(|s: String| s@) =~= region_lines(
                    all.take(i + 1),
                    region@,
                ));
            }
        }
        i = i + 1;
    }
    proof {
        assert(all.take(names@.len() as int) =~= all);
    }
    if out.len() == 0 {
        Err(TzError::RegionNotFound(region))
    } else {
        let ghost built = out@;
        sort_lines(&mut out);
        proof {
            lemma_map_values_multiset(out@, built, |s: String| s@);
        }
        Ok(out)
    }
}

/// Computes the lines the timezone listing shows. With no region asked
/// for, the lines are the regions of the known identifiers; with a
/// region, the collapsed region/location lines under it; each line once,
/// ascending, and the call fails exactly when no known identifier has
/// that region.
pub fn print_timezones(arg: Option<String>) -> (r: Result<Vec<String>, TzError>)
    ensures
        arg is None ==> r is Ok,
        r is Err <==> (arg matches Some(reg) && !known_region(reg@)),
        r matches Err(e) ==> arg matches Some(reg) && e == TzError::RegionNotFound(reg),
        arg matches Some(reg) ==> (r matches Ok(lines) ==> location_listing_ok(
            lines@.map_values(|s: String| s@),
            reg@,
        ) && lines@.len() > 0),
        arg is None ==> (r matches Ok(lines) ==> region_listing_ok(
            lines@.map_values(|s: String| s@),
        )),
{
    broadcast use vstd::multiset::group_multiset_axioms;

    let names = all_zone_names();
    let ghost nm = names@.map_values(|s: String| s@);
    proof {
        // the wrapper's facts, carried over to the mapped sequence
        assert forall|k: int| 0 <= k < nm.len() implies tz_known(#[trigger] nm[k]) by {
            assert(tz_known(names@[k]@));
        }
        assert forall|n: Seq<char>| #[trigger] tz_known(n) implies nm.contains(n) by {
            let i = choose|i: int| 0 <= i < names@.len() && names@[i]@ == n;
            assert(nm[i] == n);
        }
    }
    match arg {
        Some(region) => {
            let ghost rv = region@;
            let res = list_locations(&names, region);
            proof {
                lemma_region_lines_props(nm, rv);
                let rl = region_lines(nm, rv);
                match &res {
                    Ok(lines) => {
                        let lm = lines@.map_values(|s: String| s@);
                        assert forall|x: Seq<char>| true implies (lm.contains(x) <==> rl.contains(
                            x,
                        )) by {
                            vstd::seq_lib::to_multiset_contains::<Seq<char>>(lm, x);
                            vstd::seq_lib::to_multiset_contains::<Seq<char>>(rl, x);
                        }
                        assert forall|k: int| 0 <= k < lm.len() implies known_line(
                            #[trigger] lm[k],
                            rv,
                        ) by {
                            assert(lm.contains(lm[k]));
                            assert(rl.contains(lm[k]));
                            let w = choose|w: int| 0 <= w < rl.len() && rl[w] == lm[k];
                            assert(line_from(nm, rv, rl[w]));
                            let i = choose|i: int|
                                #![trigger nm[i]]
                                0 <= i < nm.len() && region_of(nm[i]) == rv && rl[w] == line_of(
                                    nm[i],
                                );
                            assert(tz_known(nm[i]) && region_of(nm[i]) == rv && lm[k] == line_of(
                                nm[i],
                            ));
                            assert(known_line(lm[k], rv));
                        }
                        assert forall|n: Seq<char>|
                            #[trigger] tz_known(n) && region_of(n) == rv implies lm.contains(
                            line_of(n),
                        ) by {
                            assert(nm.contains(n));
                            let w = choose|w: int| 0 <= w < nm.len() && nm[w] == n;
                            assert(region_of(nm[w]) == rv);
                            assert(rl.contains(line_of(nm[w])));
                        }
                        // each line once, in strictly ascending order
                        assert forall|i: int, j: int|
                            0 <= i < rl.len() && 0 <= j < rl.len() && i != j implies rl[i]
                            != rl[j] by {
                            if i < j {
                            } else {
                                assert(rl[j] != rl[i]);
                            }
                        }
                        rl.lemma_multiset_has_no_duplicates();
                        lm.lemma_multiset_has_no_duplicates_conv();
                        assert forall|k1: int, k2: int| 0 <= k1 < k2 < lm.len() implies str_lt(
                            lm[k1],
                            lm[k2],
                        ) by {
                            assert(line_le()(lines@[k1], lines@[k2]));
                            assert(lm[k1] != lm[k2]);
                            lemma_str_lt_connected(lm[k1], lm[k2]);
                        }
                        assert(location_listing_ok(lm, rv));
                        // a line witnesses that the region is known
                        assert(known_line(lm[0], rv));
                        assert(known_region(rv)) by {
                            let n = choose|n: Seq<char>|
                                #![trigger line_of(n)]
                                tz_known(n) && region_of(n) == rv && lm[0] == line_of(n);
                            assert(tz_known(n) && region_of(n) == rv);
                        }
                    },
                    Err(_) => {
                        // an identifier of this region would give a line
                        if known_region(rv) {
                            let n = choose|n: Seq<char>|
                                #[trigger] tz_known(n) && region_of(n) == rv;
                            assert(nm.contains(n));
                            let w = choose|w: int| 0 <= w < nm.len() && nm[w] == n;
                            assert(rl.contains(line_of(nm[w])));
                            assert(false);
                        }
                    },
                }
            }
            res
        },
        None => {
            let lines = list_regions(&names);
            proof {
                lemma_regions_of_props(nm);
                let ro = regions_of(nm);
                let lm = lines@.map_values(|s: String| s@);
                assert forall|x: Seq<char>| true implies (lm.contains(x) <==> ro.contains(x)) by {
                    vstd::seq_lib::to_multiset_contains::<Seq<char>>(lm, x);
                    vstd::seq_lib::to_multiset_contains::<Seq<char>>(ro, x);
                }
                assert forall|k: int| 0 <= k < lm.len() implies known_region(
                    #[trigger] lm[k],
                ) by {
                    assert(lm.contains(lm[k]));
                    assert(ro.contains(lm[k]));
                    let w = choose|w: int| 0 <= w < ro.len() && ro[w] == lm[k];
                    assert(is_region_in(nm, ro[w]));
                    let v = choose|v: int|
                        0 <= v < nm.len() && region_of(#[trigger] nm[v]) == ro[w];
                    assert(tz_known(nm[v]));
                }
                assert forall|n: Seq<char>| #[trigger] tz_known(n) implies lm.contains(
                    region_of(n),
                ) by {
                    assert(nm.contains(n));
                    let w = choose|w: int| 0 <= w < nm.len() && nm[w] == n;
                    assert(ro.contains(region_of(nm[w])));
                }
                assert forall|i: int, j: int|
                    0 <= i < ro.len() && 0 <= j < ro.len() && i != j implies ro[i] != ro[j] by {
                    if i < j {
                    } else {
                        assert(ro[j] != ro[i]);
                    }
                }
                ro.lemma_multiset_has_no_duplicates();
                lm.lemma_multiset_has_no_duplicates_conv();
                assert forall|k1: int, k2: int| 0 <= k1 < k2 < lm.len() implies str_lt(
                    lm[k1],
                    lm[k2],
                ) by {
                    assert(line_le()(lines@[k1], lines@[k2]));
                    assert(lm[k1] != lm[k2]);
                    lemma_str_lt_connected(lm[k1], lm[k2]);
                }
                assert(region_listing_ok(lm));
            }
            Ok(lines)
        },
    }
}

} // verus!
