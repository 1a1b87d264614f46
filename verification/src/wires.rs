//! Two wires on a grid: reading their descriptions, tracing the points they
//! pass, and finding the crossing that is reached in the fewest steps.

use crate::text::{fields, lines, parse_integer, split_fields, split_lines, word_in, COMMA};
use vstd::slice::slice_subrange;
use std::collections::HashMap;
use vstd::prelude::*;

verus! {

broadcast use vstd::std_specs::hash::group_hash_axioms;

/// The way a stretch of wire runs.
#[derive(Clone, Copy, Debug, PartialEq, Eq, Structural)]
pub enum Direction {
    Right,
    Down,
    Left,
    Up,
}

/// A stretch of wire: a direction and a number of steps.
#[derive(Clone, Copy, Debug, PartialEq, Eq, Structural)]
pub struct Instruction {
    pub direction: Direction,
    pub steps: i32,
}

/// A point of the grid.
#[derive(Clone, Copy, Debug, PartialEq, Eq, Structural)]
pub struct Point {
    pub x: i32,
    pub y: i32,
}

impl View for Point {
    type V = (int, int);

    open spec fn view(&self) -> (int, int) {
        (self.x as int, self.y as int)
    }
}

/// The direction that a letter names.
pub open spec fn direction_of(letter: u8) -> Option<Direction> {
    if letter == 82 {
        Some(Direction::Right)
    } else if letter == 85 {
        Some(Direction::Up)
    } else if letter == 76 {
        Some(Direction::Left)
    } else if letter == 68 {
        Some(Direction::Down)
    } else {
        None
    }
}

/// The stretch that a field describes: a direction letter and then a number.
pub open spec fn instruction_of(field: Seq<u8>) -> Option<Instruction> {
    if field.len() == 0 {
        None
    } else {
        match (direction_of(field[0]), word_in(field.skip(1))) {
            (Some(direction), Some(steps)) => if i32::MIN <= steps <= i32::MAX {
                Some(Instruction { direction, steps: steps as i32 })
            } else {
                None
            },
            _ => None,
        }
    }
}

/// Whether every field of the line describes a stretch.
pub open spec fn well_formed(line: Seq<u8>) -> bool {
    forall|k: int|
        0 <= k < fields(line, COMMA).len() ==> instruction_of(#[trigger] fields(line, COMMA)[k])
            is Some
}

/// The stretches that a line describes, in order.
pub open spec fn instructions(line: Seq<u8>) -> Seq<Instruction> {
    fields(line, COMMA).map_values(|field: Seq<u8>| instruction_of(field)->0)
}

/// Reads the description of a wire: stretches separated by commas, each a
/// letter (R, U, L or D) and a number of steps. Nothing is returned if any
/// field is not of that form.
pub fn parse_input(s: &[u8]) -> (r: Option<Vec<Instruction>>)
    ensures
        r is Some <==> well_formed(s@),
        r matches Some(line) ==> line@ == instructions(s@),
{
    assert(s@.take(s.len() as int) =~= s@);
    let ranges = split_fields(s, s.len(), COMMA);
    let mut line: Vec<Instruction> = Vec::new();
    let mut k: usize = 0;
    while k < ranges.len()
        invariant
            k <= ranges.len(),
            s@.take(s.len() as int) == s@,
            ranges.len() == fields(s@, COMMA).len(),
            forall|j: int|
                0 <= j < ranges.len() ==> (#[trigger] ranges[j]).0 <= ranges[j].1 <= s.len()
                    && s@.subrange(ranges[j].0 as int, ranges[j].1 as int) == fields(s@, COMMA)[j],
            forall|j: int| 0 <= j < k ==> instruction_of(#[trigger] fields(s@, COMMA)[j]) is Some,
            line@ == fields(s@, COMMA).take(k as int).map_values(
                |field: Seq<u8>| instruction_of(field)->0,
            ),
        decreases ranges.len() - k,
    {
        let (from, to) = ranges[k];
        let ghost field = fields(s@, COMMA)[k as int];
        if from == to {
            return None;
        }
        let letter = s[from];
        assert(field[0] == letter);
        assert(s@.subrange(from + 1, to as int) =~= field.skip(1));
        let direction = if letter == 82 {
            Direction::Right
        } else if letter == 85 {
            Direction::Up
        } else if letter == 76 {
            Direction::Left
        } else if letter == 68 {
            Direction::Down
        } else {
            return None;
        };
        let steps = match parse_integer(s, from + 1, to) {
            Some(steps) => steps,
            None => {
                return None;
            },
        };
        if steps < -0x8000_0000 || steps > 0x7fff_ffff {
            return None;
        }
        line.push(Instruction { direction, steps: steps as i32 });
        proof {
            let all = fields(s@, COMMA);
            assert(all.take(k + 1).map_values(|field: Seq<u8>| instruction_of(field)->0)
                =~= all.take(k as int).map_values(|field: Seq<u8>| instruction_of(field)->0).push(
                instruction_of(all[k as int])->0,
            ));
        }
        k += 1;
    }
    assert(fields(s@, COMMA).take(ranges.len() as int) =~= fields(s@, COMMA));
    Some(line)
}

/// Reads the descriptions of two wires, one on each of the first two lines of
/// the text. Nothing is returned if there are fewer than two lines, or if one
/// of the two is malformed.
pub fn parse_pair(text: &[u8]) -> (r: Option<(Vec<Instruction>, Vec<Instruction>)>)
    ensures
        r is Some <==> lines(text@).len() >= 2 && well_formed(lines(text@)[0]) && well_formed(
            lines(text@)[1],
        ),
        r matches Some(pair) ==> pair.0@ == instructions(lines(text@)[0]) && pair.1@
            == instructions(lines(text@)[1]),
{
    let ranges = split_lines(text);
    if ranges.len() < 2 {
        return None;
    }
    let first = match parse_input(slice_subrange(text, ranges[0].0, ranges[0].1)) {
        Some(first) => first,
        None => {
            return None;
        },
    };
    let second = match parse_input(slice_subrange(text, ranges[1].0, ranges[1].1)) {
        Some(second) => second,
        None => {
            return None;
        },
    };
    Some((first, second))
}

/// The point `k` steps from `from` in direction `d`.
pub open spec fn ahead(from: (int, int), d: Direction, k: int) -> (int, int) {
    match d {
        Direction::Right => (from.0 + k, from.1),
        Direction::Left => (from.0 - k, from.1),
        Direction::Up => (from.0, from.1 + k),
        Direction::Down => (from.0, from.1 - k),
    }
}

/// The points passed on a stretch of `n` steps from `from`, the end included
/// and `from` itself not. A stretch of no steps, or of fewer, passes none.
pub open spec fn stretch(from: (int, int), d: Direction, n: int) -> Seq<(int, int)> {
    Seq::new(
        if n > 0 {
            n as nat
        } else {
            0
        },
        |k: int| ahead(from, d, k + 1),
    )
}

/// Where a path ends: at its last point, or at the origin if it has none.
pub open spec fn end_of(path: Seq<(int, int)>) -> (int, int) {
    if path.len() == 0 {
        (0, 0)
    } else {
        path.last()
    }
}

/// The points that a wire passes, in order, one for every step, starting from
/// the origin, which is not counted.
pub open spec fn path(line: Seq<Instruction>) -> Seq<(int, int)>
    decreases line.len(),
{
    if line.len() == 0 {
        Seq::empty()
    } else {
        let before = path(line.drop_last());
        before + stretch(end_of(before), line.last().direction, line.last().steps as int)
    }
}

/// The points of a row of points.
pub open spec fn spots(points: Seq<Point>) -> Seq<(int, int)> {
    points.map_values(|p: Point| p@)
}

/// A longer description gives a longer path.
pub proof fn lemma_path_grows(line: Seq<Instruction>, k: int)
    requires
        0 <= k <= line.len(),
    ensures
        path(line.take(k)).len() <= path(line).len(),
    decreases line.len() - k,
{
    if k == line.len() {
        assert(line.take(k) =~= line);
    } else {
        lemma_path_grows(line, k + 1);
        assert(line.take(k + 1).drop_last() =~= line.take(k));
    }
}

/// Measures a wire: the number of steps it takes. Nothing is returned if the
/// wire is longer than `i32::MAX` steps.
pub fn length(line: &Vec<Instruction>) -> (r: Option<i32>)
    ensures
        r is Some <==> path(line@).len() <= i32::MAX,
        r matches Some(n) ==> n == path(line@).len(),
{
    let mut total: i32 = 0;
    let mut i: usize = 0;
    assert(line@.take(0) =~= Seq::<Instruction>::empty());
    while i < line.len()
        invariant
            i <= line.len(),
            total == path(line@.take(i as int)).len(),
        decreases line.len() - i,
    {
        proof {
            assert(line@.take(i + 1).drop_last() =~= line@.take(i as int));
            assert(line@.take(i + 1).last() == line@[i as int]);
        }
        let steps = line[i].steps;
        if steps > 0 {
            if steps > 0x7fff_ffff - total {
                proof {
                    lemma_path_grows(line@, i + 1);
                }
                return None;
            }
            total = total + steps;
        }
        i += 1;
    }
    assert(line@.take(line.len() as int) =~= line@);
    Some(total)
}

/// Traces a wire: the points it passes, in order. Nothing is returned if the
/// wire is longer than `i32::MAX` steps.
pub fn trace(line: &Vec<Instruction>) -> (r: Option<Vec<Point>>)
    ensures
        r is Some <==> path(line@).len() <= i32::MAX,
        r matches Some(points) ==> spots(points@) == path(line@),
{
    if length(line).is_none() {
        return None;
    }
    let mut points: Vec<Point> = Vec::new();
    let mut current = Point { x: 0, y: 0 };
    let mut i: usize = 0;
    assert(line@.take(0) =~= Seq::<Instruction>::empty());
    assert(spots(points@) =~= path(line@.take(0)));
    while i < line.len()
        invariant
            i <= line.len(),
            path(line@).len() <= i32::MAX,
            points.len() <= i32::MAX,
            spots(points@) == path(line@.take(i as int)),
            current@ == end_of(spots(points@)),
            -points.len() <= current.x <= points.len(),
            -points.len() <= current.y <= points.len(),
        decreases line.len() - i,
    {
        let Instruction { direction, steps } = line[i];
        let ghost before = spots(points@);
        let ghost from = current@;
        proof {
            assert(line@.take(i + 1).drop_last() =~= line@.take(i as int));
            assert(line@.take(i + 1).last() == line@[i as int]);
        }
        proof {
            lemma_path_grows(line@, i + 1);
        }
        let mut k: i32 = 0;
        assert(before + stretch(from, direction, 0) =~= before);
        while k < steps
            invariant
                0 <= k,
                k <= steps || k == 0,
                before.len() <= i32::MAX,
                steps > 0 ==> before.len() + steps <= i32::MAX,
                points.len() == before.len() + k,
                spots(points@) == before + stretch(from, direction, k as int),
                current@ == ahead(from, direction, k as int),
                -before.len() <= from.0 <= before.len(),
                -before.len() <= from.1 <= before.len(),
            decreases steps - k,
        {
            k += 1;
            current = match direction {
                Direction::Right => Point { x: current.x + 1, y: current.y },
                Direction::Left => Point { x: current.x - 1, y: current.y },
                Direction::Up => Point { x: current.x, y: current.y + 1 },
                Direction::Down => Point { x: current.x, y: current.y - 1 },
            };
            let ghost listed = points@;
            points.push(current);
            proof {
                assert(spots(points@) =~= spots(listed).push(current@));
                assert(stretch(from, direction, k as int) =~= stretch(
                    from,
                    direction,
                    k - 1,
                ).push(ahead(from, direction, k as int)));
                assert(spots(points@) =~= before + stretch(from, direction, k as int));
            }
        }
        proof {
            if steps <= 0 {
                assert(stretch(from, direction, steps as int) =~= stretch(from, direction, 0));
            }
            assert(spots(points@) == path(line@.take(i + 1)));
        }
        i += 1;
    }
    assert(line@.take(line.len() as int) =~= line@);
    Some(points)
}

/// After how many steps a path first passes `p`, if it does.
pub open spec fn steps_to(path: Seq<(int, int)>, p: (int, int)) -> int
    decreases path.len(),
{
    if path.len() == 0 {
        0
    } else if path.drop_last().contains(p) {
        steps_to(path.drop_last(), p)
    } else {
        path.len() as int
    }
}

/// For every point that a path passes, after how many steps it first does.
pub open spec fn first_visits(path: Seq<(int, int)>) -> Map<(int, int), int> {
    Map::new(|p: (int, int)| path.contains(p), |p: (int, int)| steps_to(path, p))
}

/// The step count of a point on a path is the place of its first occurrence.
pub proof fn lemma_steps_to(path: Seq<(int, int)>, p: (int, int))
    requires
        path.contains(p),
    ensures
        1 <= steps_to(path, p) <= path.len(),
        path[steps_to(path, p) - 1] == p,
        forall|j: int| 0 <= j < steps_to(path, p) - 1 ==> path[j] != p,
    decreases path.len(),
{
    let front = path.drop_last();
    if front.contains(p) {
        lemma_steps_to(front, p);
        assert forall|j: int| 0 <= j < steps_to(path, p) - 1 implies path[j] != p by {
            assert(front[j] == path[j]);
        }
    } else {
        let j = choose|j: int| 0 <= j < path.len() && path[j] == p;
        if j < path.len() - 1 {
            assert(front[j] == p);
        }
        assert forall|j: int| 0 <= j < path.len() - 1 implies path[j] != p by {
            if path[j] == p {
                assert(front[j] == p);
            }
        }
    }
}

/// The number under which a point is filed.
pub open spec fn key_of(p: (int, int)) -> u64 {
    ((p.0 + 0x8000_0000) * 0x1_0000_0000 + (p.1 + 0x8000_0000)) as u64
}

/// Whether both coordinates of a point fit in an `i32`.
pub open spec fn fits(p: (int, int)) -> bool {
    i32::MIN <= p.0 <= i32::MAX && i32::MIN <= p.1 <= i32::MAX
}

/// No two points are filed under one number.
pub proof fn lemma_key_unique(p: (int, int), q: (int, int))
    requires
        fits(p),
        fits(q),
        key_of(p) == key_of(q),
    ensures
        p == q,
{
}

fn key(p: Point) -> (k: u64)
    ensures
        k == key_of(p@),
{
    ((p.x as i64 + 0x8000_0000) as u64) * 0x1_0000_0000 + (p.y as i64 + 0x8000_0000) as u64
}

/// For every point that a wire passes, the number of steps after which it
/// first passes it.
pub struct Visits {
    first: HashMap<u64, i32>,
}

impl View for Visits {
    type V = Map<(int, int), int>;

    closed spec fn view(&self) -> Map<(int, int), int> {
        Map::new(
            |p: (int, int)| fits(p) && self.first@.contains_key(key_of(p)),
            |p: (int, int)| self.first@[key_of(p)] as int,
        )
    }
}

impl Visits {
    /// After how many steps the wire first passes `p`, if it does.
    pub fn steps_to(&self, p: Point) -> (r: Option<i32>)
        ensures
            r is Some <==> self@.contains_key(p@),
            r matches Some(n) ==> n == self@[p@],
    {
        match self.first.get(&key(p)) {
            Some(n) => Some(*n),
            None => None,
        }
    }
}

/// Walks a wire and notes, for every point it passes, after how many steps
/// it first does. Nothing is returned if the wire is longer than `i32::MAX`
/// steps.
pub fn map_to_points(line: &Vec<Instruction>) -> (r: Option<Visits>)
    ensures
        r is Some <==> path(line@).len() <= i32::MAX,
        r matches Some(visits) ==> visits@ == first_visits(path(line@)),
{
    let points = match trace(line) {
        Some(points) => points,
        None => {
            return None;
        },
    };
    let ghost whole = spots(points@);
    let mut first: HashMap<u64, i32> = HashMap::new();
    let mut i: usize = 0;
    while i < points.len()
        invariant
            i <= points.len() <= i32::MAX,
            whole == spots(points@),
            forall|k: u64| #[trigger]
                first@.contains_key(k) ==> exists|j: int|
                    0 <= j < i && key_of(#[trigger] whole[j]) == k,
            forall|j: int| 0 <= j < i ==> first@.contains_key(key_of(#[trigger] whole[j])),
            forall|j: int|
                0 <= j < i ==> first@[key_of(#[trigger] whole[j])] == steps_to(
                    whole.take(i as int),
                    whole[j],
                ),
        decreases points.len() - i,
    {
        let p = points[i];
        let k = key(p);
        let ghost seen = whole.take(i as int);
        let ghost before = first@;
        proof {
            assert(whole[i as int] == p@);
            assert(whole.take(i + 1).drop_last() =~= seen);
            if first@.contains_key(k) {
                let j = choose|j: int| 0 <= j < i && key_of(#[trigger] whole[j]) == k;
                assert(fits(whole[j])) by {
                    assert(whole[j] == points@[j]@);
                }
                lemma_key_unique(whole[j], p@);
                assert(seen[j] == p@);
            } else {
                if seen.contains(p@) {
                    let j = choose|j: int| 0 <= j < seen.len() && seen[j] == p@;
                    assert(whole[j] == p@);
                }
            }
        }
        if !first.contains_key(&k) {
            first.insert(k, (i + 1) as i32);
        }
        proof {
            assert forall|j: int| 0 <= j < i + 1 implies first@[key_of(#[trigger] whole[j])]
                == steps_to(whole.take(i + 1), whole[j]) by {
                if j < i {
                    assert(seen[j] == whole[j]);
                    assert(before.contains_key(key_of(whole[j])));
                    if key_of(whole[j]) == k {
                        assert(fits(whole[j])) by {
                            assert(whole[j] == points@[j]@);
                        }
                        lemma_key_unique(whole[j], p@);
                    }
                }
            }
        }
        i += 1;
    }
    let visits = Visits { first };
    proof {
        assert(whole.take(points.len() as int) =~= whole);
        assert forall|p: (int, int)| visits@.contains_key(p) <==> whole.contains(p) by {
            if visits@.contains_key(p) {
                let j = choose|j: int|
                    0 <= j < points.len() && key_of(#[trigger] whole[j]) == key_of(p);
                assert(fits(whole[j])) by {
                    assert(whole[j] == points@[j]@);
                }
                lemma_key_unique(whole[j], p);
            }
            if whole.contains(p) {
                let j = choose|j: int| 0 <= j < whole.len() && whole[j] == p;
                assert(fits(whole[j])) by {
                    assert(whole[j] == points@[j]@);
                }
                assert(first@.contains_key(key_of(whole[j])));
            }
        }
        assert forall|p: (int, int)| visits@.contains_key(p) implies visits@[p] == steps_to(
            whole,
            p,
        ) by {
            let j = choose|j: int| 0 <= j < whole.len() && whole[j] == p;
            assert(first@[key_of(whole[j])] == steps_to(whole, whole[j]));
        }
        assert(visits@ =~= first_visits(whole));
    }
    Some(visits)
}

/// Whether both paths pass `p`.
pub open spec fn crossing(a: Seq<(int, int)>, b: Seq<(int, int)>, p: (int, int)) -> bool {
    a.contains(p) && b.contains(p)
}

/// The steps that the two paths take, together, to reach `p`.
pub open spec fn combined(a: Seq<(int, int)>, b: Seq<(int, int)>, p: (int, int)) -> int {
    steps_to(a, p) + steps_to(b, p)
}

/// Finds the crossing of two wires that they reach in the fewest steps, both
/// counted together, and returns that number of steps. Nothing is returned if
/// the wires do not cross, or if one is longer than `i32::MAX` steps.
pub fn fewest_steps(first: &Vec<Instruction>, second: &Vec<Instruction>) -> (r: Option<i64>)
    ensures
        r is Some <==> path(first@).len() <= i32::MAX && path(second@).len() <= i32::MAX && exists|
            p: (int, int),
        | #[trigger] crossing(path(first@), path(second@), p),
        r matches Some(m) ==> {
            &&& exists|p: (int, int)| #[trigger]
                crossing(path(first@), path(second@), p) && combined(path(first@), path(second@), p)
                    == m
            &&& forall|p: (int, int)| #[trigger]
                crossing(path(first@), path(second@), p) ==> m <= combined(
                    path(first@),
                    path(second@),
                    p,
                )
        },
{
    let points = match trace(first) {
        Some(points) => points,
        None => {
            return None;
        },
    };
    let visits = match map_to_points(second) {
        Some(visits) => visits,
        None => {
            return None;
        },
    };
    let ghost a = path(first@);
    let ghost b = path(second@);
    let mut best: Option<i64> = None;
    let mut i: usize = 0;
    while i < points.len()
        invariant
            i <= points.len() <= i32::MAX,
            a == spots(points@),
            b.len() <= i32::MAX,
            visits@ == first_visits(b),
            best is None ==> forall|j: int| 0 <= j < i ==> !b.contains(#[trigger] a[j]),
            best matches Some(m) ==> {
                &&& exists|j: int|
                    0 <= j < i && b.contains(#[trigger] a[j]) && m == j + 1 + steps_to(b, a[j])
                &&& forall|j: int|
                    0 <= j < i && b.contains(#[trigger] a[j]) ==> m <= j + 1 + steps_to(b, a[j])
            },
        decreases points.len() - i,
    {
        let p = points[i];
        assert(a[i as int] == p@);
        match visits.steps_to(p) {
            Some(n) => {
                proof {
                    lemma_steps_to(b, p@);
                }
                let reached = (i + 1) as i64 + n as i64;
                let better = match best {
                    Some(m) => reached < m,
                    None => true,
                };
                if better {
                    best = Some(reached);
                }
            },
            None => {},
        }
        i += 1;
    }
    proof {
        match best {
            None => {
                assert forall|p: (int, int)| !#[trigger] crossing(a, b, p) by {
                    if crossing(a, b, p) {
                        let j = choose|j: int| 0 <= j < a.len() && a[j] == p;
                        assert(!b.contains(a[j]));
                    }
                }
            },
            Some(m) => {
                assert forall|p: (int, int)| #[trigger] crossing(a, b, p) implies m <= combined(
                    a,
                    b,
                    p,
                ) by {
                    lemma_steps_to(a, p);
                    let j = steps_to(a, p) - 1;
                    assert(b.contains(a[j]));
                }
                let j = choose|j: int|
                    0 <= j < points.len() && b.contains(#[trigger] a[j]) && m == j + 1 + steps_to(
                        b,
                        a[j],
                    );
                let q = a[j];
                assert(a.contains(q));
                assert(crossing(a, b, q));
                lemma_steps_to(a, q);
                assert(combined(a, b, q) == m);
            },
        }
    }
    best
}

} // verus!
