//! The reconciliation of spatial containment with an authoritative code.
//!
//! A record is resolved to the regions that contain its position. Where the
//! record also carries an authoritative code that designates a region, that
//! region is trusted over the boundaries at its own level: the spatial hits
//! of that level leave, and the designated region enters.

use crate::admin::{code_holder, lemma_code_holder, AdminStore, AdminView};
use crate::admin_geofinder::{is_hit_list, AdminGeoFinder};
use crate::coord::Coord;
use vstd::prelude::*;

verus! {

/// The level of cities, the level by which a record gets its weight.
pub const CITY_LEVEL: u32 = 8;

/// The region that an optional authoritative code designates.
pub open spec fn authority(admins: Seq<AdminView>, code: Option<Seq<char>>) -> Option<usize> {
    match code {
        Some(c) => match code_holder(admins, c) {
            Some(h) => Some(h as usize),
            None => None,
        },
        None => None,
    }
}

/// The test that a handle names a region of another level than `level`.
pub open spec fn of_other_level(admins: Seq<AdminView>, level: u32) -> spec_fn(usize) -> bool {
    |h: usize| admins[h as int].level != level
}

/// The candidates reconciled with the designated region: without one they
/// stand; with one, the candidates of its level leave and it comes last.
pub open spec fn reconciled(
    admins: Seq<AdminView>,
    candidates: Seq<usize>,
    authoritative: Option<usize>,
) -> Seq<usize> {
    match authoritative {
        Some(a) => candidates.filter(of_other_level(admins, admins[a as int].level)).push(a),
        None => candidates,
    }
}

/// `resolved` is a resolution of the position `p` and the optional code
/// `code`: the regions with `p` inside their boundary, in some order,
/// reconciled with the region that the code designates.
pub open spec fn is_resolution(
    admins: Seq<AdminView>,
    p: Coord,
    code: Option<Seq<char>>,
    resolved: Seq<usize>,
) -> bool {
    exists|candidates: Seq<usize>| #[trigger]
        is_hit_list(admins, candidates, p) && resolved == reconciled(
            admins,
            candidates,
            authority(admins, code),
        )
}

/// The weight of the first region of `resolved` at the level `city_level`,
/// `0` where there is none.
pub open spec fn weight_of(admins: Seq<AdminView>, resolved: Seq<usize>, city_level: u32) -> u32
    decreases resolved.len(),
{
    if resolved.len() == 0 {
        0
    } else if admins[resolved[0] as int].level == city_level {
        admins[resolved[0] as int].weight
    } else {
        weight_of(admins, resolved.drop_first(), city_level)
    }
}

/// No two of the resolved regions have the same level.
pub open spec fn levels_distinct(admins: Seq<AdminView>, resolved: Seq<usize>) -> bool {
    forall|i: int, j: int|
        0 <= i < j < resolved.len() ==> admins[(#[trigger] resolved[i]) as int].level
            != admins[(#[trigger] resolved[j]) as int].level
}

/// Whether no two of the resolved regions have the same level. Boundaries
/// that overlap at one level can give a record two regions of that level;
/// this tells the caller, who may flag the record.
pub fn has_distinct_levels(store: &AdminStore, resolved: &Vec<usize>) -> (r: bool)
    requires
        forall|i: int| 0 <= i < resolved.len() ==> (#[trigger] resolved[i]) < store@.len(),
    ensures
        r == levels_distinct(store@, resolved@),
{
    let mut j: usize = 0;
    while j < resolved.len()
        invariant
            j <= resolved.len(),
            forall|i: int| 0 <= i < resolved.len() ==> (#[trigger] resolved[i]) < store@.len(),
            forall|a: int, b: int|
                0 <= a < b < j ==> store@[(#[trigger] resolved[a]) as int].level != store@[(
                #[trigger] resolved[b]) as int].level,
        decreases resolved.len() - j,
    {
        let level = store.get(resolved[j]).level;
        let mut i: usize = 0;
        while i < j
            invariant
                i <= j < resolved.len(),
                forall|k: int| 0 <= k < resolved.len() ==> (#[trigger] resolved[k]) < store@.len(),
                level == store@[resolved[j as int] as int].level,
                forall|a: int| 0 <= a < i ==> store@[(#[trigger] resolved[a]) as int].level != level,
            decreases j - i,
        {
            if store.get(resolved[i]).level == level {
                return false;
            }
            i += 1;
        }
        j += 1;
    }
    true
}

/// Reconciles spatial candidates with a designated region.
pub fn reconcile(store: &AdminStore, candidates: Vec<usize>, authoritative: Option<usize>) -> (r:
    Vec<usize>)
    requires
        forall|i: int| 0 <= i < candidates.len() ==> (#[trigger] candidates[i]) < store@.len(),
        authoritative matches Some(a) ==> a < store@.len(),
    ensures
        r@ == reconciled(store@, candidates@, authoritative),
{
    match authoritative {
        None => candidates,
        Some(a) => {
            let level = store.get(a).level;
            let ghost keep = of_other_level(store@, level);
            let mut kept: Vec<usize> = Vec::new();
            let mut i: usize = 0;
            proof {
                reveal(Seq::filter);
            }
            while i < candidates.len()
                invariant
                    i <= candidates.len(),
                    forall|j: int|
                        0 <= j < candidates.len() ==> (#[trigger] candidates[j]) < store@.len(),
                    keep == of_other_level(store@, level),
                    kept@ == candidates@.take(i as int).filter(keep),
                decreases candidates.len() - i,
            {
                proof {
                    reveal(Seq::filter);
                    assert(candidates@.take(i as int + 1).drop_last() == candidates@.take(
                        i as int,
                    ));
                }
                let h = candidates[i];
                if store.get(h).level != level {
                    kept.push(h);
                }
                i += 1;
            }
            assert(candidates@.take(i as int) == candidates@);
            kept.push(a);
            kept
        },
    }
}

/// Resolves a record: the regions that contain `point`, reconciled with the
/// region that `code` designates, if it designates one.
pub fn resolve(finder: &AdminGeoFinder, point: &Coord, code: Option<&str>) -> (resolved: Vec<usize>)
    ensures
        is_resolution(
            finder@,
            *point,
            match code {
                Some(c) => Some(c@),
                None => None,
            },
            resolved@,
        ),
        forall|i: int| 0 <= i < resolved.len() ==> (#[trigger] resolved[i]) < finder@.len(),
{
    let candidates = finder.handles_for_coord(*point);
    let authoritative = match code {
        Some(c) => finder.store().find_by_code(c),
        None => None,
    };
    proof {
        if let Some(c) = code {
            lemma_code_holder(finder@, c@);
        }
    }
    let ghost hits = candidates@;
    let resolved = reconcile(finder.store(), candidates, authoritative);
    proof {
        assert(is_hit_list(finder@, hits, *point));
        if let Some(a) = authoritative {
            let kept = hits.filter(of_other_level(finder@, finder@[a as int].level));
            assert forall|i: int| 0 <= i < resolved.len() implies (#[trigger] resolved[i])
                < finder@.len() by {
                if i < kept.len() {
                    hits.lemma_filter_contains_rev(
                        of_other_level(finder@, finder@[a as int].level),
                        kept[i],
                    );
                }
            }
        }
    }
    resolved
}

/// The weight that a resolved record takes from its city.
pub fn weight(store: &AdminStore, resolved: &Vec<usize>, city_level: u32) -> (w: u32)
    requires
        forall|i: int| 0 <= i < resolved.len() ==> (#[trigger] resolved[i]) < store@.len(),
    ensures
        w == weight_of(store@, resolved@, city_level),
{
    let mut i: usize = 0;
    assert(resolved@.skip(0) == resolved@);
    while i < resolved.len()
        invariant
            i <= resolved.len(),
            forall|j: int| 0 <= j < resolved.len() ==> (#[trigger] resolved[j]) < store@.len(),
            weight_of(store@, resolved@, city_level) == weight_of(
                store@,
                resolved@.skip(i as int),
                city_level,
            ),
        decreases resolved.len() - i,
    {
        assert(resolved@.skip(i as int).drop_first() == resolved@.skip(i as int + 1));
        let admin = store.get(resolved[i]);
        if admin.level == city_level {
            return admin.weight;
        }
        i += 1;
    }
    0
}

/// Spatial containment shows in the resolution: where `p` is inside the
/// boundary of the region `h`, a resolved region has that boundary. The one
/// exception is a designated region of the same level with another boundary,
/// which takes the place of `h`.
pub proof fn lemma_containing_region_is_resolved(
    admins: Seq<AdminView>,
    p: Coord,
    code: Option<Seq<char>>,
    resolved: Seq<usize>,
    h: usize,
)
    requires
        is_resolution(admins, p, code, resolved),
        h < admins.len(),
        admins[h as int].covers(p),
        !(authority(admins, code) matches Some(a) && admins[a as int].level
            == admins[h as int].level && admins[a as int].boundary != admins[h as int].boundary),
    ensures
        exists|i: int|
            0 <= i < resolved.len() && admins[(#[trigger] resolved[i]) as int].boundary
                == admins[h as int].boundary,
{
    let candidates = choose|candidates: Seq<usize>| #[trigger]
        is_hit_list(admins, candidates, p) && resolved == reconciled(
            admins,
            candidates,
            authority(admins, code),
        );
    assert(candidates.contains(h));
    let at = choose|i: int| 0 <= i < candidates.len() && candidates[i] == h;
    match authority(admins, code) {
        None => {
            assert(admins[resolved[at] as int].boundary == admins[h as int].boundary);
        },
        Some(a) => {
            let keep = of_other_level(admins, admins[a as int].level);
            let kept = candidates.filter(keep);
            if admins[a as int].level == admins[h as int].level {
                assert(admins[resolved[kept.len() as int] as int].boundary
                    == admins[h as int].boundary);
            } else {
                candidates.lemma_filter_contains(keep, at);
                let i = choose|i: int| 0 <= i < kept.len() && kept[i] == h;
                assert(admins[resolved[i] as int].boundary == admins[h as int].boundary);
            }
        },
    }
}

/// A position outside every boundary, with no designated region, resolves
/// to nothing.
pub proof fn lemma_outside_resolves_to_nothing(
    admins: Seq<AdminView>,
    p: Coord,
    code: Option<Seq<char>>,
    resolved: Seq<usize>,
)
    requires
        is_resolution(admins, p, code, resolved),
        authority(admins, code) is None,
        forall|h: int| 0 <= h < admins.len() ==> !(#[trigger] admins[h]).covers(p),
    ensures
        resolved.len() == 0,
{
    let candidates = choose|candidates: Seq<usize>| #[trigger]
        is_hit_list(admins, candidates, p) && resolved == reconciled(
            admins,
            candidates,
            authority(admins, code),
        );
    if candidates.len() > 0 {
        assert(admins[candidates[0] as int].covers(p));
    }
}

/// The designated region wins at its level: it is the last of the resolved,
/// and no other resolved region has its level, whatever the boundaries say.
pub proof fn lemma_authoritative_wins(
    admins: Seq<AdminView>,
    p: Coord,
    code: Option<Seq<char>>,
    resolved: Seq<usize>,
    a: usize,
)
    requires
        is_resolution(admins, p, code, resolved),
        authority(admins, code) == Some(a),
    ensures
        resolved.len() > 0,
        resolved.last() == a,
        forall|i: int|
            0 <= i < resolved.len() && admins[(#[trigger] resolved[i]) as int].level
                == admins[a as int].level ==> i == resolved.len() - 1,
{
    let candidates = choose|candidates: Seq<usize>| #[trigger]
        is_hit_list(admins, candidates, p) && resolved == reconciled(
            admins,
            candidates,
            authority(admins, code),
        );
    let keep = of_other_level(admins, admins[a as int].level);
    let kept = candidates.filter(keep);
    assert forall|i: int|
        0 <= i < resolved.len() && admins[(#[trigger] resolved[i]) as int].level
            == admins[a as int].level implies i == resolved.len() - 1 by {
        if i < kept.len() {
            candidates.lemma_filter_pred(keep, i);
        }
    }
}

/// Without a region of the city level among the resolved, the weight is `0`.
pub proof fn lemma_weight_without_city(
    admins: Seq<AdminView>,
    resolved: Seq<usize>,
    city_level: u32,
)
    requires
        forall|i: int|
            0 <= i < resolved.len() ==> admins[(#[trigger] resolved[i]) as int].level
                != city_level,
    ensures
        weight_of(admins, resolved, city_level) == 0,
    decreases resolved.len(),
{
    if resolved.len() > 0 {
        let rest = resolved.drop_first();
        assert(admins[resolved[0] as int].level != city_level);
        assert forall|i: int| 0 <= i < rest.len() implies admins[(#[trigger] rest[i]) as int].level
            != city_level by {
            assert(rest[i] == resolved[i + 1]);
        }
        lemma_weight_without_city(admins, rest, city_level);
    }
}

/// Resolution is repeatable: two resolutions of the same position and code
/// over the same regions hold the same regions.
pub proof fn lemma_resolution_is_repeatable(
    admins: Seq<AdminView>,
    p: Coord,
    code: Option<Seq<char>>,
    first: Seq<usize>,
    second: Seq<usize>,
)
    requires
        is_resolution(admins, p, code, first),
        is_resolution(admins, p, code, second),
    ensures
        first.to_set() == second.to_set(),
{
    assert forall|x: usize| first.contains(x) <==> second.contains(x) by {
        if first.contains(x) {
            lemma_resolved_twice(admins, p, code, first, second, x);
        }
        if second.contains(x) {
            lemma_resolved_twice(admins, p, code, second, first, x);
        }
    }
    assert(first.to_set() =~= second.to_set());
}

/// A region of one resolution is a region of any other resolution of the
/// same position and code.
proof fn lemma_resolved_twice(
    admins: Seq<AdminView>,
    p: Coord,
    code: Option<Seq<char>>,
    first: Seq<usize>,
    second: Seq<usize>,
    x: usize,
)
    requires
        is_resolution(admins, p, code, first),
        is_resolution(admins, p, code, second),
        first.contains(x),
    ensures
        second.contains(x),
{
    let c1 = choose|candidates: Seq<usize>| #[trigger]
        is_hit_list(admins, candidates, p) && first == reconciled(
            admins,
            candidates,
            authority(admins, code),
        );
    let c2 = choose|candidates: Seq<usize>| #[trigger]
        is_hit_list(admins, candidates, p) && second == reconciled(
            admins,
            candidates,
            authority(admins, code),
        );
    match authority(admins, code) {
        None => {
            let i = choose|i: int| 0 <= i < c1.len() && c1[i] == x;
            assert(admins[c1[i] as int].covers(p));
            assert(c2.contains(x));
        },
        Some(a) => {
            let keep = of_other_level(admins, admins[a as int].level);
            let k1 = c1.filter(keep);
            let k2 = c2.filter(keep);
            let i = choose|i: int| 0 <= i < first.len() && first[i] == x;
            if i < k1.len() {
                assert(k1[i] == x);
                assert(k1.contains(x));
                c1.lemma_filter_pred(keep, i);
                c1.lemma_filter_contains_rev(keep, x);
                let j = choose|j: int| 0 <= j < c1.len() && c1[j] == x;
                assert(admins[c1[j] as int].covers(p));
                assert(c2.contains(x));
                let m = choose|m: int| 0 <= m < c2.len() && c2[m] == x;
                c2.lemma_filter_contains(keep, m);
                let n = choose|n: int| 0 <= n < k2.len() && k2[n] == x;
                assert(second[n] == x);
            } else {
                assert(second[k2.len() as int] == x);
            }
        },
    }
}

} // verus!
