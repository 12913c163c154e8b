use vstd::prelude::*;

use crate::structs::{BuildingData, Section, SectionView, StartEnd};
use crate::time::minutes_of;

verus! {

broadcast use vstd::std_specs::hash::group_hash_axioms;

/// Seconds that must be left over once the walk between two meetings is done.
pub const WALK_BUFFER_SECONDS: u32 = 300;

/// Position of the building named `id`; where a name is listed twice, the later
/// entry counts.
pub open spec fn located(bm: Seq<BuildingData>, id: Seq<char>) -> Option<(int, int)>
    decreases bm.len(),
{
    if bm.len() == 0 {
        None
    } else if bm.last().id@ == id {
        Some((bm.last().east as int, bm.last().north as int))
    } else {
        located(bm.drop_last(), id)
    }
}

pub open spec fn abs(x: int) -> int {
    if x < 0 {
        -x
    } else {
        x
    }
}

/// Meters walked from one building to another going east or west, then north or
/// south; unknown where a building has no position.
pub open spec fn walk_meters(bm: Seq<BuildingData>, a: Seq<char>, b: Seq<char>) -> Option<int> {
    match (located(bm, a), located(bm, b)) {
        (Some(p), Some(q)) => Some(abs(p.0 - q.0) + abs(p.1 - q.1)),
        _ => None,
    }
}

/// Seconds from the end of `first` to the start of `second`.
pub open spec fn gap_seconds(first: StartEnd, second: StartEnd) -> int {
    (minutes_of(second.start) - minutes_of(first.end)) * 60
}

/// Whether, at `speed` millimeters per second, the walk from `first` to `second`
/// leaves at least the buffer: `gap - meters / speed >= 300` seconds, an unknown
/// position failing.
pub open spec fn walk_feasible(
    first: StartEnd,
    second: StartEnd,
    bm: Seq<BuildingData>,
    speed: u32,
) -> bool {
    match walk_meters(bm, first.building@, second.building@) {
        Some(d) => (gap_seconds(first, second) - WALK_BUFFER_SECONDS) * speed >= d * 1000,
        None => false,
    }
}

/// Conflict of two meetings where `first` starts before `second`: they overlap,
/// or the walk between them does not fit.
pub open spec fn ordered_conflict(
    first: StartEnd,
    second: StartEnd,
    bm: Seq<BuildingData>,
    speed: u32,
) -> bool {
    first.end > second.start || !walk_feasible(first, second, bm, speed)
}

/// Whether either meeting leaves the daily window.
pub open spec fn outside_window(a: StartEnd, b: StartEnd, earliest: u32, latest: u32) -> bool {
    a.start < earliest || b.start < earliest || a.end > latest || b.end > latest
}

/// Whether two meetings share a start or end instant.
pub open spec fn shared_instant(a: StartEnd, b: StartEnd) -> bool {
    a.start == b.start || a.start == b.end || a.end == b.start || a.end == b.end
}

/// Whether two meetings on one day cannot both be attended.
pub open spec fn block_conflict(
    a: StartEnd,
    b: StartEnd,
    bm: Seq<BuildingData>,
    speed: u32,
    earliest: u32,
    latest: u32,
) -> bool {
    outside_window(a, b, earliest, latest) || shared_instant(a, b) || if a.start < b.start {
        ordered_conflict(a, b, bm, speed)
    } else {
        ordered_conflict(b, a, bm, speed)
    }
}

/// Meetings of a section on weekday `d`, none where the day is not listed.
pub open spec fn day_blocks(s: SectionView, d: u32) -> Seq<StartEnd> {
    if s.classtimes.contains_key(d) {
        s.classtimes[d]@
    } else {
        seq![]
    }
}

/// Whether two sections cannot stand in one schedule: on some weekday, some
/// meeting of one and some meeting of the other conflict.
pub open spec fn sections_conflict(
    s1: SectionView,
    s2: SectionView,
    bm: Seq<BuildingData>,
    speed: u32,
    earliest: u32,
    latest: u32,
) -> bool {
    exists|d: u32, i: int, j: int|
        1 <= d <= 5 && 0 <= i < day_blocks(s1, d).len() && 0 <= j < day_blocks(s2, d).len()
            && #[trigger] block_conflict(
            day_blocks(s1, d)[i],
            day_blocks(s2, d)[j],
            bm,
            speed,
            earliest,
            latest,
        )
}

fn locate(bm: &Vec<BuildingData>, id: &String) -> (r: Option<(i32, i32)>)
    ensures
        match r {
            Some(p) => located(bm@, id@) == Some((p.0 as int, p.1 as int)),
            None => located(bm@, id@) is None,
        },
{
    let mut i: usize = bm.len();
    proof {
        assert(bm@.subrange(0, i as int) =~= bm@);
    }
    while i > 0
        invariant
            0 <= i <= bm.len(),
            located(bm@, id@) == located(bm@.subrange(0, i as int), id@),
        decreases i,
    {
        proof {
            assert(bm@.subrange(0, i as int).drop_last() =~= bm@.subrange(0, i - 1));
        }
        i = i - 1;
        if bm[i].id == *id {
            return Some((bm[i].east, bm[i].north));
        }
    }
    None
}

fn minutes(t: u32) -> (r: i128)
    ensures
        r == minutes_of(t),
        0 <= r <= 2576980419,
{
    (t / 100) as i128 * 60 + (t % 100) as i128
}

fn walk_ok(first: &StartEnd, second: &StartEnd, bm: &Vec<BuildingData>, speed: u32) -> (r: bool)
    ensures
        r == walk_feasible(*first, *second, bm@, speed),
{
    let meters: i128;
    match (locate(bm, &first.building), locate(bm, &second.building)) {
        (Some(p), Some(q)) => {
            let dx: i128 = p.0 as i128 - q.0 as i128;
            let dy: i128 = p.1 as i128 - q.1 as i128;
            let ax: i128 = if dx < 0 {
                -dx
            } else {
                dx
            };
            let ay: i128 = if dy < 0 {
                -dy
            } else {
                dy
            };
            meters = ax + ay;
        },
        _ => {
            return false;
        },
    }
    let gap: i128 = (minutes(second.start) - minutes(first.end)) * 60;
    proof {
        assert(-200000000000i128 <= gap <= 200000000000i128);
    }
    proof {
        assert((gap - 300) * speed <= 200000000300 * 4294967295) by (nonlinear_arith)
            requires
                -200000000000 <= gap <= 200000000000,
                speed <= 4294967295,
                speed >= 0,
        ;
        assert((gap - 300) * speed >= -200000000300 * 4294967295) by (nonlinear_arith)
            requires
                -200000000000 <= gap <= 200000000000,
                speed <= 4294967295,
                speed >= 0,
        ;
    }
    let lhs: i128 = (gap - WALK_BUFFER_SECONDS as i128) * speed as i128;
    lhs >= meters * 1000
}

fn blocks_conflict(
    a: &StartEnd,
    b: &StartEnd,
    bm: &Vec<BuildingData>,
    speed: u32,
    earliest: u32,
    latest: u32,
) -> (r: bool)
    ensures
        r == block_conflict(*a, *b, bm@, speed, earliest, latest),
{
    if a.start < earliest || b.start < earliest || a.end > latest || b.end > latest {
        return true;
    }
    if a.start == b.start || a.start == b.end || a.end == b.start || a.end == b.end {
        return true;
    }
    let (first, second) = if a.start < b.start {
        (a, b)
    } else {
        (b, a)
    };
    if first.end > second.start {
        true
    } else {
        !walk_ok(first, second, bm, speed)
    }
}

/// takes two sections and determines if they have overlapping time slots, unwalkable, or too early or late
pub fn is_conflict(
    section1: &Section,
    section2: &Section,
    buildings: &Vec<BuildingData>,
    walk_speed: u32,
    earliest: u32,
    latest: u32,
) -> (r: bool)
    ensures
        r == sections_conflict(section1@, section2@, buildings@, walk_speed, earliest, latest),
{
    let mut day: u32 = 1;
    while day < 6
        invariant
            1 <= day <= 6,
            forall|d: u32, i: int, j: int|
                1 <= d < day && 0 <= i < day_blocks(section1@, d).len() && 0 <= j < day_blocks(section2@,
                    d,
                ).len() ==> !#[trigger] block_conflict(
                    day_blocks(section1@, d)[i],
                    day_blocks(section2@, d)[j],
                    buildings@,
                    walk_speed,
                    earliest,
                    latest,
                ),
        decreases 6 - day,
    {
        match (section1.classtimes.get(&day), section2.classtimes.get(&day)) {
            (Some(times1), Some(times2)) => {
                assert(times1@ == day_blocks(section1@, day));
                assert(times2@ == day_blocks(section2@, day));
                let mut i: usize = 0;
                while i < times1.len()
                    invariant
                        0 <= i <= times1.len(),
                        1 <= day < 6,
                        times1@ == day_blocks(section1@, day),
                        times2@ == day_blocks(section2@, day),
                        forall|d: u32, i: int, j: int|
                            1 <= d < day && 0 <= i < day_blocks(section1@, d).len() && 0 <= j
                                < day_blocks(section2@, d).len() ==> !#[trigger] block_conflict(
                                day_blocks(section1@, d)[i],
                                day_blocks(section2@, d)[j],
                                buildings@,
                                walk_speed,
                                earliest,
                                latest,
                            ),
                        forall|ii: int, j: int|
                            0 <= ii < i && 0 <= j < times2@.len() ==> !#[trigger] block_conflict(
                                times1@[ii],
                                times2@[j],
                                buildings@,
                                walk_speed,
                                earliest,
                                latest,
                            ),
                    decreases times1.len() - i,
                {
                    let mut j: usize = 0;
                    while j < times2.len()
                        invariant
                            0 <= i < times1.len(),
                            0 <= j <= times2.len(),
                            1 <= day < 6,
                            times1@ == day_blocks(section1@, day),
                            times2@ == day_blocks(section2@, day),
                            forall|d: u32, i: int, j: int|
                                1 <= d < day && 0 <= i < day_blocks(section1@, d).len() && 0 <= j
                                    < day_blocks(section2@, d).len() ==> !#[trigger] block_conflict(
                                    day_blocks(section1@, d)[i],
                                    day_blocks(section2@, d)[j],
                                    buildings@,
                                    walk_speed,
                                    earliest,
                                    latest,
                                ),
                            forall|ii: int, jj: int|
                                (0 <= ii < i && 0 <= jj < times2@.len()) || (ii == i && 0 <= jj
                                    < j) ==> !#[trigger] block_conflict(
                                    times1@[ii],
                                    times2@[jj],
                                    buildings@,
                                    walk_speed,
                                    earliest,
                                    latest,
                                ),
                        decreases times2.len() - j,
                    {
                        if blocks_conflict(
                            &times1[i],
                            &times2[j],
                            buildings,
                            walk_speed,
                            earliest,
                            latest,
                        ) {
                            assert(block_conflict(
                                day_blocks(section1@, day)[i as int],
                                day_blocks(section2@, day)[j as int],
                                buildings@,
                                walk_speed,
                                earliest,
                                latest,
                            ));
                            return true;
                        }
                        j = j + 1;
                    }
                    i = i + 1;
                }
            },
            _ => {},
        }
        day = day + 1;
    }
    false
}

} // verus!

verus! {

proof fn lemma_block_conflict_symmetric(
    a: StartEnd,
    b: StartEnd,
    bm: Seq<BuildingData>,
    speed: u32,
    earliest: u32,
    latest: u32,
)
    ensures
        block_conflict(a, b, bm, speed, earliest, latest) == block_conflict(
            b,
            a,
            bm,
            speed,
            earliest,
            latest,
        ),
{
}

/// Conflict does not depend on which of the two sections comes first.
pub proof fn lemma_conflict_symmetric(
    s1: SectionView,
    s2: SectionView,
    bm: Seq<BuildingData>,
    speed: u32,
    earliest: u32,
    latest: u32,
)
    ensures
        sections_conflict(s1, s2, bm, speed, earliest, latest) == sections_conflict(
            s2,
            s1,
            bm,
            speed,
            earliest,
            latest,
        ),
{
    if sections_conflict(s1, s2, bm, speed, earliest, latest) {
        let (d, i, j) = choose|d: u32, i: int, j: int|
            1 <= d <= 5 && 0 <= i < day_blocks(s1, d).len() && 0 <= j < day_blocks(s2, d).len()
                && #[trigger] block_conflict(
                day_blocks(s1, d)[i],
                day_blocks(s2, d)[j],
                bm,
                speed,
                earliest,
                latest,
            );
        lemma_block_conflict_symmetric(
            day_blocks(s1, d)[i],
            day_blocks(s2, d)[j],
            bm,
            speed,
            earliest,
            latest,
        );
        assert(block_conflict(
            day_blocks(s2, d)[j],
            day_blocks(s1, d)[i],
            bm,
            speed,
            earliest,
            latest,
        ));
    }
    if sections_conflict(s2, s1, bm, speed, earliest, latest) {
        let (d, i, j) = choose|d: u32, i: int, j: int|
            1 <= d <= 5 && 0 <= i < day_blocks(s2, d).len() && 0 <= j < day_blocks(s1, d).len()
                && #[trigger] block_conflict(
                day_blocks(s2, d)[i],
                day_blocks(s1, d)[j],
                bm,
                speed,
                earliest,
                latest,
            );
        lemma_block_conflict_symmetric(
            day_blocks(s2, d)[i],
            day_blocks(s1, d)[j],
            bm,
            speed,
            earliest,
            latest,
        );
        assert(block_conflict(
            day_blocks(s1, d)[j],
            day_blocks(s2, d)[i],
            bm,
            speed,
            earliest,
            latest,
        ));
    }
}

/// A section that meets at least once on a weekday conflicts with itself: its
/// meetings share their start and end instants with themselves.
pub proof fn lemma_conflict_with_itself(
    s: SectionView,
    d: u32,
    bm: Seq<BuildingData>,
    speed: u32,
    earliest: u32,
    latest: u32,
)
    requires
        1 <= d <= 5,
        day_blocks(s, d).len() > 0,
    ensures
        sections_conflict(s, s, bm, speed, earliest, latest),
{
    assert(block_conflict(
        day_blocks(s, d)[0],
        day_blocks(s, d)[0],
        bm,
        speed,
        earliest,
        latest,
    ));
}

/// A meeting that starts before `earliest` or ends after `latest` conflicts with
/// every meeting of another section on the same weekday, whichever section is
/// named first.
pub proof fn lemma_window_rule(
    s1: SectionView,
    s2: SectionView,
    d: u32,
    i: int,
    j: int,
    bm: Seq<BuildingData>,
    speed: u32,
    earliest: u32,
    latest: u32,
)
    requires
        1 <= d <= 5,
        0 <= i < day_blocks(s1, d).len(),
        0 <= j < day_blocks(s2, d).len(),
        day_blocks(s1, d)[i].start < earliest || day_blocks(s1, d)[i].end > latest,
    ensures
        sections_conflict(s1, s2, bm, speed, earliest, latest),
        sections_conflict(s2, s1, bm, speed, earliest, latest),
{
    assert(block_conflict(
        day_blocks(s1, d)[i],
        day_blocks(s2, d)[j],
        bm,
        speed,
        earliest,
        latest,
    ));
    assert(block_conflict(
        day_blocks(s2, d)[j],
        day_blocks(s1, d)[i],
        bm,
        speed,
        earliest,
        latest,
    ));
}

} // verus!
