//! A map of orbits: which object circles which. Counting the orbits, direct
//! and indirect, and finding the way from one object to another.

use crate::text::{fields, lines, split_fields, split_lines};
use vstd::prelude::*;
use vstd::slice::{slice_subrange, slice_to_vec};

verus! {

/// The sign that stands between a centre and its satellite.
pub const BRACKET: u8 = 41;

/// One line of the map: `satellite` is in orbit around `center`.
#[derive(Debug, PartialEq, Eq)]
pub struct Orbit {
    pub center: Vec<u8>,
    pub satellite: Vec<u8>,
}

/// The name of an object.
pub type Name = Seq<u8>;

impl View for Orbit {
    type V = (Name, Name);

    open spec fn view(&self) -> (Name, Name) {
        (self.center@, self.satellite@)
    }
}

/// The map as pairs of names: centre first, satellite second.
pub open spec fn chart(map: Seq<Orbit>) -> Seq<(Name, Name)> {
    map.map_values(|o: Orbit| o@)
}

/// The orbit that a line describes: what stands before its first bracket is
/// the centre, what follows up to the next bracket, or to the end, the
/// satellite. A line without a bracket describes none.
pub open spec fn orbit_of(line: Seq<u8>) -> Option<(Name, Name)> {
    let parts = fields(line, BRACKET);
    if parts.len() >= 2 {
        Some((parts[0], parts[1]))
    } else {
        None
    }
}

/// Whether every line of the text describes an orbit.
pub open spec fn well_formed(text: Seq<u8>) -> bool {
    forall|k: int| 0 <= k < lines(text).len() ==> orbit_of(#[trigger] lines(text)[k]) is Some
}

/// The orbits that a text describes, line by line.
pub open spec fn charted(text: Seq<u8>) -> Seq<(Name, Name)> {
    lines(text).map_values(|line: Seq<u8>| orbit_of(line)->0)
}

/// Reads a map of orbits: one orbit per line, the centre, a closing bracket and
/// the satellite. Nothing is returned if a line has no bracket.
pub fn parse_orbits(text: &[u8]) -> (r: Option<Vec<Orbit>>)
    ensures
        r is Some <==> well_formed(text@),
        r matches Some(map) ==> chart(map@) == charted(text@),
{
    let mut map: Vec<Orbit> = Vec::new();
    let ranges = split_lines(text);
    let mut k: usize = 0;
    while k < ranges.len()
        invariant
            k <= ranges.len(),
            ranges.len() == lines(text@).len(),
            forall|j: int|
                0 <= j < ranges.len() ==> (#[trigger] ranges[j]).0 <= ranges[j].1 <= text.len()
                    && text@.subrange(ranges[j].0 as int, ranges[j].1 as int) == lines(text@)[j],
            forall|j: int| 0 <= j < k ==> orbit_of(#[trigger] lines(text@)[j]) is Some,
            chart(map@) == lines(text@).take(k as int).map_values(
                |line: Seq<u8>| orbit_of(line)->0,
            ),
        decreases ranges.len() - k,
    {
        let (from, to) = ranges[k];
        let line = slice_subrange(text, from, to);
        assert(line@.take(line.len() as int) =~= line@);
        let parts = split_fields(line, line.len(), BRACKET);
        if parts.len() < 2 {
            return None;
        }
        let center = slice_to_vec(slice_subrange(line, parts[0].0, parts[0].1));
        let satellite = slice_to_vec(slice_subrange(line, parts[1].0, parts[1].1));
        let ghost listed = map@;
        map.push(Orbit { center, satellite });
        proof {
            let all = lines(text@);
            assert(chart(map@) =~= chart(listed).push((center@, satellite@)));
            assert(all.take(k + 1).map_values(|line: Seq<u8>| orbit_of(line)->0) =~= all.take(
                k as int,
            ).map_values(|line: Seq<u8>| orbit_of(line)->0).push(orbit_of(all[k as int])->0));
        }
        k += 1;
    }
    assert(lines(text@).take(ranges.len() as int) =~= lines(text@));
    Some(map)
}

/// Whether two names are the same.
pub fn same(a: &[u8], b: &[u8]) -> (r: bool)
    ensures
        r == (a@ == b@),
{
    if a.len() != b.len() {
        return false;
    }
    let mut i: usize = 0;
    while i < a.len()
        invariant
            i <= a.len(),
            a.len() == b.len(),
            forall|j: int| 0 <= j < i ==> a@[j] == b@[j],
        decreases a.len() - i,
    {
        if a[i] != b[i] {
            return false;
        }
        i += 1;
    }
    assert(a@ =~= b@);
    true
}

/// The number of orbits, direct and indirect, of `object` and of everything
/// that circles it, directly or indirectly, where `object` itself is in
/// `depth` orbits: its own `depth`, and the orbits of each of its satellites,
/// which are in one orbit more. `fuel` bounds how far down the count may go;
/// there is no count where that does not suffice.
pub open spec fn orbits_from(map: Seq<(Name, Name)>, object: Name, depth: nat, fuel: nat) -> Option<
    nat,
>
    decreases fuel, map.len() + 1,
{
    match orbits_below(map, object, depth, fuel, map.len()) {
        Some(sum) => Some(depth + sum),
        None => None,
    }
}

/// The orbits of the satellites that the first `k` lines of the map give to
/// `object`.
pub open spec fn orbits_below(
    map: Seq<(Name, Name)>,
    object: Name,
    depth: nat,
    fuel: nat,
    k: nat,
) -> Option<nat>
    decreases fuel, k,
{
    if k == 0 || k > map.len() {
        Some(0)
    } else {
        match orbits_below(map, object, depth, fuel, (k - 1) as nat) {
            None => None,
            Some(sum) => if map[k - 1].0 == object {
                if fuel == 0 {
                    None
                } else {
                    match orbits_from(map, map[k - 1].1, depth + 1, (fuel - 1) as nat) {
                        None => None,
                        Some(v) => Some(sum + v),
                    }
                }
            } else {
                Some(sum)
            },
        }
    }
}

/// A count as far as it fits in 64 bits.
pub open spec fn capped(count: Option<nat>) -> Option<u64> {
    match count {
        Some(v) => if v <= u64::MAX {
            Some(v as u64)
        } else {
            None
        },
        None => None,
    }
}

/// Reading more lines of the map never lowers the count, and never brings back
/// a count that was lost.
pub proof fn lemma_orbits_grow(
    map: Seq<(Name, Name)>,
    object: Name,
    depth: nat,
    fuel: nat,
    k: nat,
    n: nat,
)
    requires
        k <= n <= map.len(),
    ensures
        orbits_below(map, object, depth, fuel, k) is None ==> orbits_below(
            map,
            object,
            depth,
            fuel,
            n,
        ) is None,
        orbits_below(map, object, depth, fuel, n) matches Some(more) ==> orbits_below(
            map,
            object,
            depth,
            fuel,
            k,
        ) matches Some(fewer) && fewer <= more,
    decreases n - k,
{
    if k < n {
        lemma_orbits_grow(map, object, depth, fuel, k, (n - 1) as nat);
    }
}

/// Counts the orbits, direct and indirect, of `object` and of everything that
/// circles it, where `object` itself is in `depth` orbits. The count goes no
/// more than `fuel` objects down from `object`; nothing is returned where
/// that does not suffice, or where the count does not fit in 64 bits.
pub fn count_orbits(map: &Vec<Orbit>, object: &[u8], depth: u64, fuel: usize) -> (r: Option<u64>)
    ensures
        r == capped(orbits_from(chart(map@), object@, depth as nat, fuel as nat)),
    decreases fuel,
{
    let ghost pairs = chart(map@);
    let mut sum: u64 = 0;
    let mut k: usize = 0;
    while k < map.len()
        invariant
            k <= map.len(),
            pairs == chart(map@),
            orbits_below(pairs, object@, depth as nat, fuel as nat, k as nat) == Some(sum as nat),
        decreases map.len() - k,
    {
        assert(pairs[k as int] == map@[k as int]@);
        if same(map[k].center.as_slice(), object) {
            proof {
                lemma_orbits_grow(
                    pairs,
                    object@,
                    depth as nat,
                    fuel as nat,
                    (k + 1) as nat,
                    map.len() as nat,
                );
            }
            if fuel == 0 || depth == u64::MAX {
                proof {
                    if fuel > 0 {
                        lemma_orbits_deep(
                            pairs,
                            map@[k as int]@.1,
                            (depth + 1) as nat,
                            (fuel - 1) as nat,
                        );
                    }
                }
                return None;
            }
            let below = match count_orbits(map, map[k].satellite.as_slice(), depth + 1, fuel - 1) {
                Some(below) => below,
                None => {
                    return None;
                },
            };
            sum = match sum.checked_add(below) {
                Some(sum) => sum,
                None => {
                    return None;
                },
            };
        }
        k += 1;
    }
    depth.checked_add(sum)
}

/// An object in `depth` orbits accounts for `depth` orbits at least.
pub proof fn lemma_orbits_deep(map: Seq<(Name, Name)>, object: Name, depth: nat, fuel: nat)
    ensures
        orbits_from(map, object, depth, fuel) matches Some(v) ==> v >= depth,
{
}

/// Whether the map gives `object` any satellite.
pub open spec fn is_center(map: Seq<(Name, Name)>, object: Name) -> bool {
    exists|k: int| 0 <= k < map.len() && (#[trigger] map[k]).0 == object
}

/// Whether the map says that `satellite` circles `center`.
pub open spec fn circles(map: Seq<(Name, Name)>, center: Name, satellite: Name) -> bool {
    exists|k: int| 0 <= k < map.len() && #[trigger] map[k] == (center, satellite)
}

/// The way up from `to` to `from`: the object that `to` circles, the one that
/// that one circles, and so on, up to `from`. It is empty where `from` has no
/// satellites or `to` is not found below it. Among the satellites of an
/// object, the first in the map under which `to` is found leads the way.
/// `fuel` bounds how far down the search may go; there is no answer where
/// that does not suffice.
pub open spec fn route(map: Seq<(Name, Name)>, from: Name, to: Name, fuel: nat) -> Option<Seq<Name>>
    decreases fuel, map.len() + 1,
{
    if !is_center(map, from) {
        Some(Seq::empty())
    } else if circles(map, from, to) {
        Some(seq![from])
    } else {
        route_via(map, from, to, fuel, 0)
    }
}

/// The way up from `to` to `from` through one of the satellites that the
/// lines of the map from the `k`-th on give to `from`.
pub open spec fn route_via(
    map: Seq<(Name, Name)>,
    from: Name,
    to: Name,
    fuel: nat,
    k: nat,
) -> Option<Seq<Name>>
    decreases fuel, map.len() - k,
{
    if k >= map.len() {
        Some(Seq::empty())
    } else if map[k as int].0 == from {
        if fuel == 0 {
            None
        } else {
            match route(map, map[k as int].1, to, (fuel - 1) as nat) {
                None => None,
                Some(way) => if way.len() > 0 {
                    Some(way.push(from))
                } else {
                    route_via(map, from, to, fuel, k + 1)
                },
            }
        }
    } else {
        route_via(map, from, to, fuel, k + 1)
    }
}

/// The names of a row of names.
pub open spec fn names(way: Seq<Vec<u8>>) -> Seq<Name> {
    way.map_values(|name: Vec<u8>| name@)
}

/// Whether `from` has satellites, and whether `to` is one of them.
fn look(map: &Vec<Orbit>, from: &[u8], to: &[u8]) -> (r: (bool, bool))
    ensures
        r.0 == is_center(chart(map@), from@),
        r.1 == circles(chart(map@), from@, to@),
{
    let ghost pairs = chart(map@);
    let mut center = false;
    let mut holds = false;
    let mut k: usize = 0;
    while k < map.len()
        invariant
            k <= map.len(),
            pairs == chart(map@),
            center == exists|j: int| 0 <= j < k && (#[trigger] pairs[j]).0 == from@,
            holds == exists|j: int| 0 <= j < k && #[trigger] pairs[j] == (from@, to@),
        decreases map.len() - k,
    {
        assert(pairs[k as int] == map@[k as int]@);
        if same(map[k].center.as_slice(), from) {
            center = true;
            if same(map[k].satellite.as_slice(), to) {
                holds = true;
            }
        }
        k += 1;
    }
    (center, holds)
}

/// Finds the way up from `to` to `from`: the object that `to` circles first,
/// `from` last. The way is empty where `to` is not found below `from`. The
/// search goes no more than `fuel` objects down from `from`; nothing is
/// returned where that does not suffice.
pub fn path_for(map: &Vec<Orbit>, from: &[u8], to: &[u8], fuel: usize) -> (r: Option<Vec<Vec<u8>>>)
    ensures
        r is Some <==> route(chart(map@), from@, to@, fuel as nat) is Some,
        r matches Some(way) ==> names(way@) == route(chart(map@), from@, to@, fuel as nat)->0,
    decreases fuel,
{
    let ghost pairs = chart(map@);
    let (center, holds) = look(map, from, to);
    if !center {
        let way: Vec<Vec<u8>> = Vec::new();
        assert(names(way@) =~= Seq::<Name>::empty());
        return Some(way);
    }
    if holds {
        let mut way: Vec<Vec<u8>> = Vec::new();
        way.push(slice_to_vec(from));
        assert(names(way@) =~= seq![from@]);
        return Some(way);
    }
    let mut k: usize = 0;
    while k < map.len()
        invariant
            k <= map.len(),
            pairs == chart(map@),
            route(pairs, from@, to@, fuel as nat) == route_via(
                pairs,
                from@,
                to@,
                fuel as nat,
                k as nat,
            ),
        decreases map.len() - k,
    {
        assert(pairs[k as int] == map@[k as int]@);
        if same(map[k].center.as_slice(), from) {
            if fuel == 0 {
                return None;
            }
            let mut way = match path_for(map, map[k].satellite.as_slice(), to, fuel - 1) {
                Some(way) => way,
                None => {
                    return None;
                },
            };
            if way.len() > 0 {
                let ghost below = way@;
                way.push(slice_to_vec(from));
                assert(names(way@) =~= names(below).push(from@));
                return Some(way);
            }
        }
        k += 1;
    }
    let way: Vec<Vec<u8>> = Vec::new();
    assert(names(way@) =~= Seq::<Name>::empty());
    Some(way)
}

/// The object that a traveller starts from: the centre of the first line of
/// the map that has the traveller as its satellite, and `origin` where no
/// line has.
pub open spec fn home_of(map: Seq<(Name, Name)>, traveller: Name, origin: Name) -> Name
    decreases map.len(),
{
    if map.len() == 0 {
        origin
    } else if map[0].1 == traveller {
        map[0].0
    } else {
        home_of(map.drop_first(), traveller, origin)
    }
}

/// How many leading objects two ways down from the origin share, counted
/// until one of the ways is used up: `a` and `b` are ways up, read from their
/// ends, and `i` objects are known to be shared.
pub open spec fn shared(a: Seq<Name>, b: Seq<Name>, i: nat) -> nat
    decreases a.len() - i,
{
    if i < a.len() && i < b.len() && a[a.len() - 1 - i] == b[b.len() - 1 - i] {
        if i + 1 == a.len() || i + 1 == b.len() {
            i + 1
        } else {
            shared(a, b, i + 1)
        }
    } else {
        i
    }
}

/// The number of transfers between two ways up to a common origin: what is
/// left of each once the objects they share are taken off, and one for each
/// of the two.
pub open spec fn hops(a: Seq<Name>, b: Seq<Name>) -> int {
    (a.len() - shared(a, b, 0)) + 1 + (b.len() - shared(a, b, 0)) + 1
}

/// The number of orbital transfers that take `me` to the object that `other`
/// circles, by the ways that lead from `origin` down to the two. Nothing is
/// returned where one of the two is not found below `origin`, or where `fuel`
/// does not suffice for the search.
pub open spec fn transfers_between(
    map: Seq<(Name, Name)>,
    origin: Name,
    me: Name,
    other: Name,
    fuel: nat,
) -> Option<int> {
    match (
        route(map, origin, home_of(map, me, origin), fuel),
        route(map, origin, home_of(map, other, origin), fuel),
    ) {
        (Some(a), Some(b)) => if a.len() > 0 && b.len() > 0 {
            Some(hops(a, b))
        } else {
            None
        },
        _ => None,
    }
}

/// Finds the object that `traveller` circles, or `origin` if it circles none.
pub fn home(map: &Vec<Orbit>, traveller: &[u8], origin: &[u8]) -> (r: Vec<u8>)
    ensures
        r@ == home_of(chart(map@), traveller@, origin@),
{
    let ghost pairs = chart(map@);
    let mut k: usize = 0;
    assert(pairs.skip(0) =~= pairs);
    while k < map.len()
        invariant
            k <= map.len(),
            pairs == chart(map@),
            home_of(pairs, traveller@, origin@) == home_of(
                pairs.skip(k as int),
                traveller@,
                origin@,
            ),
        decreases map.len() - k,
    {
        assert(pairs[k as int] == map@[k as int]@);
        assert(pairs.skip(k as int)[0] == pairs[k as int]);
        assert(pairs.skip(k as int).drop_first() =~= pairs.skip(k + 1));
        if same(map[k].satellite.as_slice(), traveller) {
            return slice_to_vec(map[k].center.as_slice());
        }
        k += 1;
    }
    slice_to_vec(origin)
}

/// Counts the orbital transfers that take `me` to the object that `other`
/// circles. Nothing is returned where there is no such number, or where it
/// does not fit in a `usize`.
pub fn transfers(map: &Vec<Orbit>, origin: &[u8], me: &[u8], other: &[u8], fuel: usize) -> (r:
    Option<usize>)
    ensures
        r is Some <==> (transfers_between(
            chart(map@),
            origin@,
            me@,
            other@,
            fuel as nat,
        ) matches Some(n) && n <= usize::MAX),
        r matches Some(n) ==> n == transfers_between(
            chart(map@),
            origin@,
            me@,
            other@,
            fuel as nat,
        )->0,
{
    let mine = home(map, me, origin);
    let theirs = home(map, other, origin);
    let a = match path_for(map, origin, mine.as_slice(), fuel) {
        Some(a) => a,
        None => {
            return None;
        },
    };
    let b = match path_for(map, origin, theirs.as_slice(), fuel) {
        Some(b) => b,
        None => {
            return None;
        },
    };
    if a.len() == 0 || b.len() == 0 {
        return None;
    }
    let mut i: usize = 0;
    loop
        invariant_except_break
            i < a.len(),
            i < b.len(),
            shared(names(a@), names(b@), 0) == shared(names(a@), names(b@), i as nat),
        ensures
            i <= a.len(),
            i <= b.len(),
            i == shared(names(a@), names(b@), 0),
        decreases a.len() - i,
    {
        assert(names(a@)[a.len() - 1 - i] == a@[a.len() - 1 - i]@);
        assert(names(b@)[b.len() - 1 - i] == b@[b.len() - 1 - i]@);
        if same(a[a.len() - 1 - i].as_slice(), b[b.len() - 1 - i].as_slice()) {
            i += 1;
            if i == a.len() || i == b.len() {
                break ;
            }
        } else {
            break ;
        }
    }
    let left = a.len() - i;
    let right = b.len() - i;
    match left.checked_add(right) {
        Some(both) => both.checked_add(2),
        None => None,
    }
}

} // verus!
