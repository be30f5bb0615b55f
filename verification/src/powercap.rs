//! Choosing the energy counter that measures the CPU package, and differencing it.

use vstd::prelude::*;

use crate::numbers;
use crate::order;
use crate::order::{Key, KeyView};
use crate::text;

verus! {

/// One entry of the powercap class directory.
#[derive(Debug)]
pub struct PowercapZone {
    /// The entry's file name, e.g. `intel-rapl:0`.
    pub node: String,
    /// What its `energy_uj` file holds, where that could be read.
    pub energy_uj: Option<String>,
    /// What its `name` file holds, where that could be read.
    pub name: Option<String>,
    /// What its `max_energy_range_uj` file holds, where that could be read.
    pub max_energy_range_uj: Option<String>,
}

/// An energy counter and the value at which it wraps.
#[derive(Debug)]
pub struct EnergyZone {
    /// Where the counter stands below the sysfs mount point.
    pub path: String,
    /// The value at which the counter wraps, where that is known.
    pub max: Option<u64>,
}

/// Whether a zone's counter can be read. Reading is the only honest test: the file is
/// commonly present but closed to all but root.
pub open spec fn readable(z: PowercapZone) -> bool {
    match z.energy_uj {
        Some(t) => numbers::u64_in(t@) is Some,
        None => false,
    }
}

/// How much of the package a zone of this name measures, the first package first.
pub open spec fn name_rank(name: Seq<char>) -> u32 {
    if name == "package-0"@ {
        0
    } else if text::starts_with(name, "package"@) {
        1
    } else {
        2
    }
}

/// How much of the package a zone measures. A zone without a name is like any part.
pub open spec fn zone_rank(z: PowercapZone) -> u32 {
    match z.name {
        Some(n) => name_rank(text::trim(n@)),
        None => 2,
    }
}

/// The value at which a zone's counter wraps.
pub open spec fn zone_max(z: PowercapZone) -> Option<int> {
    match z.max_energy_range_uj {
        Some(t) => numbers::u64_in(t@),
        None => None,
    }
}

/// Where a zone's counter stands below the sysfs mount point.
pub open spec fn energy_path(z: PowercapZone) -> Seq<char> {
    "class/powercap/"@ + z.node@ + "/energy_uj"@
}

/// The zones whose counters can be read, as they were listed.
pub open spec fn readable_zones(zones: Seq<PowercapZone>) -> Seq<PowercapZone>
    decreases zones.len(),
{
    if zones.len() == 0 {
        Seq::empty()
    } else if readable(zones.last()) {
        readable_zones(zones.drop_last()).push(zones.last())
    } else {
        readable_zones(zones.drop_last())
    }
}

/// What a zone is ordered by: how much it measures, then its name.
pub open spec fn zone_key(z: PowercapZone) -> KeyView {
    KeyView { class: zone_rank(z), number: 0, name: z.node@ }
}

/// The keys of some zones.
pub open spec fn zone_keys(zones: Seq<PowercapZone>) -> Seq<KeyView> {
    zones.map_values(|z: PowercapZone| zone_key(z))
}

/// The zone to measure with.
pub open spec fn zone_choice(zones: Seq<PowercapZone>) -> Option<PowercapZone> {
    let able = readable_zones(zones);
    if able.len() == 0 {
        None
    } else {
        Some(able[order::first_of(zone_keys(able))])
    }
}

/// Whether `e` is the counter of the zone `z`.
pub open spec fn counts_for(e: EnergyZone, z: PowercapZone) -> bool {
    &&& e.path@ == energy_path(z)
    &&& match e.max {
        Some(n) => zone_max(z) == Some(n as int),
        None => zone_max(z) is None,
    }
}

/// How much of the package a zone measures.
fn rank_zone(z: &PowercapZone) -> (r: u32)
    ensures
        r == zone_rank(*z),
{
    let all = match &z.name {
        Some(n) => text::characters(n.as_str()),
        None => {
            return 2;
        },
    };
    let name = text::trimmed(all.as_slice());
    if text::same(name, text::characters("package-0").as_slice()) {
        0
    } else if text::has_prefix(name, text::characters("package").as_slice()) {
        1
    } else {
        2
    }
}

/// The best readable energy counter.
///
/// Package zones are preferred over their `core` and `dram` subzones, which measure only
/// part of the package. Unreadable zones are skipped: a zone that cannot be read is no
/// better than no zone at all.
pub fn find_energy_zone(zones: &Vec<PowercapZone>) -> (r: Option<EnergyZone>)
    ensures
        match r {
            Some(e) => zone_choice(zones@) matches Some(z) && counts_for(e, z),
            None => zone_choice(zones@) is None,
        },
{
    let ghost able = readable_zones(zones@);
    let mut keys: Vec<Key> = Vec::new();
    let mut at: Vec<usize> = Vec::new();
    let mut i: usize = 0;
    assert(order::views(keys@) == zone_keys(readable_zones(zones@.take(0))));
    while i < zones.len()
        invariant
            i <= zones@.len(),
            order::views(keys@) == zone_keys(readable_zones(zones@.take(i as int))),
            at@.len() == readable_zones(zones@.take(i as int)).len(),
            forall|j: int|
                0 <= j < at@.len() ==> (#[trigger] at@[j]) < zones@.len() && zones@[at@[j] as int]
                    == readable_zones(zones@.take(i as int))[j],
        decreases zones@.len() - i,
    {
        let ghost upto = zones@.take(i + 1);
        assert(upto.drop_last() == zones@.take(i as int));
        assert(upto.last() == zones@[i as int]);
        let zone = &zones[i];
        let energy: Option<u64> = match &zone.energy_uj {
            Some(t) => numbers::read_u64(t.as_str()),
            None => None,
        };
        if energy.is_some() {
            let ghost before = keys@;
            keys.push(
                Key {
                    class: rank_zone(zone),
                    number: 0,
                    name: text::characters(zone.node.as_str()),
                },
            );
            at.push(i);
            assert(order::views(keys@) == order::views(before).push(zone_key(*zone)));
            assert(order::views(keys@) == zone_keys(readable_zones(upto)));
        }
        i = i + 1;
    }
    assert(zones@.take(i as int) == zones@);
    assert(order::views(keys@).len() == able.len());
    let k: usize = match order::first(&keys) {
        Some(k) => k,
        None => {
            return None;
        },
    };
    let zone = &zones[at[k]];
    Some(
        EnergyZone {
            path: "class/powercap/".to_owned().concat(zone.node.as_str()).concat("/energy_uj"),
            max: match &zone.max_energy_range_uj {
                Some(t) => numbers::read_u64(t.as_str()),
                None => None,
            },
        },
    )
}

/// The energy used between two readings of a counter, in its own unit, where that can be
/// told: a counter that went backwards wrapped, if it is known where it does.
pub open spec fn energy_between(prev: u64, now: u64, max: Option<u64>) -> Option<int> {
    if now >= prev {
        Some(now - prev)
    } else {
        match max {
            Some(m) => Some(if m >= prev {
                m - prev + now
            } else {
                now as int
            }),
            None => None,
        }
    }
}

/// Microjoules consumed between two counter readings, accounting for wraparound.
///
/// The counters are narrow enough to wrap in normal use: a package zone that wraps every
/// 65 kJ or so lasts under two minutes at full load.
pub fn energy_delta(prev: u64, now: u64, max: Option<u64>) -> (r: Option<u64>)
    ensures
        match r {
            Some(d) => energy_between(prev, now, max) == Some(d as int),
            None => energy_between(prev, now, max) is None,
        },
{
    if now >= prev {
        return Some(now - prev);
    }
    // Without a known wrap point the counter was probably reset; drop the sample rather
    // than report a wild figure.

    match max {
        Some(m) => Some(m.saturating_sub(prev) + now),
        None => None,
    }
}

/// The energy used is right whether or not the counter wrapped meanwhile: from any reading,
/// using less than a full turn of the counter gives back exactly what was used.
pub proof fn law_energy_survives_one_wrap(prev: u64, used: u64, max: u64)
    requires
        prev < max,
        used < max,
    ensures
        energy_between(prev, ((prev + used) % (max as int)) as u64, Some(max)) == Some(used as int),
{
    if prev + used < max {
        assert((prev + used) % (max as int) == prev + used) by (nonlinear_arith)
            requires
                0 <= prev + used < max,
        ;
    } else {
        assert((prev + used) % (max as int) == prev + used - max) by (nonlinear_arith)
            requires
                max <= prev + used < 2 * max,
        ;
    }
}

/// A counter that was reset gives no figure rather than a wild one, and no figure ever
/// exceeds what the counter can hold.
pub proof fn law_energy_is_plausible(prev: u64, now: u64, max: Option<u64>)
    ensures
        now < prev && max is None ==> energy_between(prev, now, max) is None,
        energy_between(prev, now, max) matches Some(d) ==> 0 <= d && (d <= now || (max is Some && d < max->0)),
{
}

proof fn lemma_readable_is_listed(zones: Seq<PowercapZone>, i: int) -> (k: int)
    requires
        0 <= i < readable_zones(zones).len(),
    ensures
        0 <= k < zones.len(),
        zones[k] == readable_zones(zones)[i],
        readable(zones[k]),
    decreases zones.len(),
{
    let rest = readable_zones(zones.drop_last());
    if i < rest.len() {
        lemma_readable_is_listed(zones.drop_last(), i)
    } else {
        zones.len() - 1
    }
}

proof fn lemma_listed_is_readable(zones: Seq<PowercapZone>, k: int) -> (i: int)
    requires
        0 <= k < zones.len(),
        readable(zones[k]),
    ensures
        0 <= i < readable_zones(zones).len(),
        zones[k] == readable_zones(zones)[i],
    decreases zones.len(),
{
    if k == zones.len() - 1 {
        readable_zones(zones).len() - 1
    } else {
        lemma_listed_is_readable(zones.drop_last(), k)
    }
}

/// A zone is chosen exactly if one can be read; it can be read itself, and no readable
/// zone measures more of the package. So the package wins over its parts.
pub proof fn law_package_wins_over_its_parts(zones: Seq<PowercapZone>)
    ensures
        zone_choice(zones) is Some <==> exists|k: int|
            0 <= k < zones.len() && readable(#[trigger] zones[k]),
        zone_choice(zones) matches Some(z) ==> {
            &&& zones.contains(z)
            &&& readable(z)
            &&& forall|k: int|
                0 <= k < zones.len() && readable(#[trigger] zones[k]) ==> zone_rank(z) <= zone_rank(
                    zones[k],
                )
        },
{
    let able = readable_zones(zones);
    let keys = zone_keys(able);
    if able.len() > 0 {
        order::law_some_entry_is_first(keys);
        let f = order::first_of(keys);
        let c = lemma_readable_is_listed(zones, f);
        assert(readable(zones[c]));
        assert forall|k: int| 0 <= k < zones.len() && readable(#[trigger] zones[k]) implies
            zone_rank(zones[c]) <= zone_rank(zones[k]) by {
            let i = lemma_listed_is_readable(zones, k);
            if i != f {
                assert(order::precedes(keys, f, i));
            }
        }
    } else {
        assert forall|k: int| 0 <= k < zones.len() implies !readable(#[trigger] zones[k]) by {
            if readable(zones[k]) {
                let i = lemma_listed_is_readable(zones, k);
            }
        }
    }
}

/// Whether no two entries of a listing have the same name, as in any directory.
pub open spec fn distinctly_named(zones: Seq<PowercapZone>) -> bool {
    forall|i: int, j: int|
        0 <= i < j < zones.len() ==> (#[trigger] zones[i]).node@ != (#[trigger] zones[j]).node@
}

/// The order in which the kernel lists the zones makes no difference to which one is
/// measured with.
pub proof fn law_listing_order_is_irrelevant(
    zones: Seq<PowercapZone>,
    shuffled: Seq<PowercapZone>,
)
    requires
        distinctly_named(zones),
        distinctly_named(shuffled),
        forall|z: PowercapZone| zones.contains(z) <==> shuffled.contains(z),
    ensures
        zone_choice(zones) == zone_choice(shuffled),
{
    let able = readable_zones(zones);
    let others = readable_zones(shuffled);
    let (x, y) = (zone_keys(able), zone_keys(others));
    if able.len() == 0 {
        if others.len() > 0 {
            let k = lemma_readable_is_listed(shuffled, 0);
            assert(shuffled.contains(shuffled[k]));
            let j = choose|j: int| 0 <= j < zones.len() && zones[j] == shuffled[k];
            let i = lemma_listed_is_readable(zones, j);
        }
    } else {
        order::law_some_entry_is_first(x);
        let f = order::first_of(x);
        let c = lemma_readable_is_listed(zones, f);
        assert(zones.contains(zones[c]));
        let k = choose|k: int| 0 <= k < shuffled.len() && shuffled[k] == zones[c];
        let g = lemma_listed_is_readable(shuffled, k);
        order::law_some_entry_is_first(y);
        let h = order::first_of(y);
        let d = lemma_readable_is_listed(shuffled, h);
        assert(shuffled.contains(shuffled[d]));
        let e = choose|e: int| 0 <= e < zones.len() && zones[e] == shuffled[d];
        let i = lemma_listed_is_readable(zones, e);
        if k != d {
            assert(shuffled[k].node@ != shuffled[d].node@);
            assert(i != f && g != h);
            assert(order::precedes(x, f, i));
            assert(order::precedes(y, h, g));
            assert(x[f] == y[g] && x[i] == y[h]);
            order::lemma_key_lt_asymmetric(x[f], x[i]);
        }
    }
}

/// Without a wrap, the energy used is what the counter gained, whatever is known of where it
/// wraps.
pub proof fn law_energy_is_what_the_counter_gained(prev: u64, used: u64, max: Option<u64>)
    requires
        prev + used <= u64::MAX,
    ensures
        energy_between(prev, (prev + used) as u64, max) == Some(used as int),
{
}

/// A counter that went backwards used up what was left of its range, and then as much as it
/// shows; where it stood outside the range, only what it shows is certain.
pub proof fn law_energy_after_a_wrap(left: u64, prev: u64, now: u64)
    requires
        now < prev,
        prev + left <= u64::MAX,
    ensures
        energy_between(prev, now, Some((prev + left) as u64)) == Some(left + now),
        forall|m: u64| m < prev ==> energy_between(prev, now, Some(m)) == Some(now as int),
        energy_between(prev, now, None) is None,
{
}

/// Whether a zone's energy file holds a number, and its name file, white space around it
/// aside, this name.
pub open spec fn tells(z: PowercapZone, name: Seq<char>) -> bool {
    &&& z.energy_uj matches Some(t) && numbers::u64_in(t@) is Some
    &&& z.name matches Some(n) && text::trim(n@) == name
}

/// Whether a zone's energy file holds a number, and its name starts with `package`.
pub open spec fn tells_package(z: PowercapZone) -> bool {
    &&& z.energy_uj matches Some(t) && numbers::u64_in(t@) is Some
    &&& z.name matches Some(n) && exists|rest: Seq<char>| text::trim(n@) == #[trigger] ("package"@
        + rest)
}

proof fn lemma_ranks(z: PowercapZone)
    requires
        readable(z),
    ensures
        zone_rank(z) == 0 <==> tells(z, "package-0"@),
        zone_rank(z) <= 1 <==> tells_package(z),
        zone_rank(z) <= 2,
{
    if let Some(n) = z.name {
        let name = text::trim(n@);
        text::law_prefixes_and_suffixes(name, "package"@);
        assert("package-0"@ =~= "package"@ + seq!['-', '0']) by {
            reveal_strlit("package-0");
            reveal_strlit("package");
        }
        if text::starts_with(name, "package"@) {
            assert(name == "package"@ + name.skip("package"@.len() as int));
        }
        if tells_package(z) {
            let rest = choose|rest: Seq<char>| name == #[trigger] ("package"@ + rest);
            text::law_prefixes_and_suffixes(rest, "package"@);
        }
        if name == "package-0"@ {
            text::law_prefixes_and_suffixes(seq!['-', '0'], "package"@);
        }
    }
}

/// Which zone is measured with, by what the zones' own files say. A zone is chosen exactly if
/// some energy file holds a number, and the chosen one's does. If such a zone is named
/// `package-0`, the chosen one is; else, if the name of one starts with `package`, that of the
/// chosen one does. Among zones alike in this, the chosen one's node name comes first.
#[verifier::rlimit(60)]
pub proof fn law_zone_is_chosen_by_name(zones: Seq<PowercapZone>)
    ensures
        zone_choice(zones) is None <==> forall|k: int|
            0 <= k < zones.len() ==> !((#[trigger] zones[k]).energy_uj matches Some(t)
                && numbers::u64_in(t@) is Some),
        zone_choice(zones) matches Some(z) ==> {
            &&& zones.contains(z)
            &&& z.energy_uj matches Some(t) && numbers::u64_in(t@) is Some
            &&& (exists|k: int| 0 <= k < zones.len() && tells(#[trigger] zones[k], "package-0"@))
                ==> tells(z, "package-0"@)
            &&& (exists|k: int| 0 <= k < zones.len() && tells_package(#[trigger] zones[k]))
                ==> tells_package(z)
            &&& forall|k: int|
                {
                    &&& 0 <= k < zones.len()
                    &&& (#[trigger] zones[k]).energy_uj matches Some(t) && numbers::u64_in(
                        t@,
                    ) is Some
                    &&& tells(zones[k], "package-0"@) == tells(z, "package-0"@)
                    &&& tells_package(zones[k]) == tells_package(z)
                } ==> zones[k].node@ == z.node@ || order::name_lt(z.node@, zones[k].node@)
        },
{
    law_package_wins_over_its_parts(zones);
    let able = readable_zones(zones);
    let keys = zone_keys(able);
    if able.len() == 0 {
        assert forall|k: int| 0 <= k < zones.len() implies !((#[trigger] zones[k]).energy_uj matches
            Some(t) && numbers::u64_in(t@) is Some) by {
            assert(!readable(zones[k]));
        }
    } else {
        order::law_some_entry_is_first(keys);
        let f = order::first_of(keys);
        let c = lemma_readable_is_listed(zones, f);
        let z = zones[c];
        assert(readable(zones[c]));
        lemma_ranks(z);
        assert forall|k: int| 0 <= k < zones.len() && readable(#[trigger] zones[k]) implies (
        zone_rank(zones[k]) == 0 <==> tells(zones[k], "package-0"@)) && (zone_rank(zones[k]) <= 1
            <==> tells_package(zones[k])) && zone_rank(zones[k]) <= 2 && zone_rank(z) <= zone_rank(
            zones[k],
        ) by {
            lemma_ranks(zones[k]);
        }
        assert forall|k: int|
            {
                &&& 0 <= k < zones.len()
                &&& (#[trigger] zones[k]).energy_uj matches Some(t) && numbers::u64_in(t@) is Some
                &&& tells(zones[k], "package-0"@) == tells(z, "package-0"@)
                &&& tells_package(zones[k]) == tells_package(z)
            } implies zones[k].node@ == z.node@ || order::name_lt(z.node@, zones[k].node@) by {
            assert(readable(zones[k]));
            let i = lemma_listed_is_readable(zones, k);
            if i != f {
                assert(order::precedes(keys, f, i));
            }
        }
        assert forall|k: int| 0 <= k < zones.len() && tells(#[trigger] zones[k], "package-0"@) implies
            readable(zones[k]) by {
        }
        assert forall|k: int| 0 <= k < zones.len() && tells_package(#[trigger] zones[k]) implies
            readable(zones[k]) by {
        }
    }
}

/// The counter of a zone is its energy file, and it wraps where the zone's range file says,
/// if that holds a number.
pub proof fn law_counter_of_a_zone(e: EnergyZone, z: PowercapZone)
    requires
        counts_for(e, z),
    ensures
        e.path@ == "class/powercap/"@ + z.node@ + "/energy_uj"@,
        energy_path(z) == e.path@,
        e.max matches Some(m) ==> z.max_energy_range_uj matches Some(t) && numbers::u64_in(t@)
            == Some(m as int),
        e.max is None ==> (z.max_energy_range_uj matches Some(t) ==> numbers::u64_in(t@) is None),
        zone_max(z) == match e.max {
            Some(m) => Some(m as int),
            None => None,
        },
{
}

} // verus!
