use vstd::prelude::*;

use crate::structs::{MeetTime, ProfData, Section, SectionInput, StartEnd};
use crate::text::{parse_u32, parsed_u32};
use crate::time::{days_of, get_days, military_of, to_military};

verus! {

broadcast use vstd::std_specs::hash::group_hash_axioms;

/// How many times a failed retrieval of one course is tried again.
pub const MAX_RETRIES: u32 = 3;

/// Whether a course whose retrieval has failed, and has been tried again
/// `retries` times already, is tried once more.
pub fn retry_after_failure(retries: u32) -> (r: bool)
    ensures
        r == (retries < MAX_RETRIES),
{
    retries < MAX_RETRIES
}

/// The meeting that a listed meeting group stands for.
pub open spec fn block_of(m: MeetTime) -> StartEnd {
    StartEnd {
        building: m.building,
        start: military_of(m.start_time@),
        end: military_of(m.end_time@),
    }
}

/// `b` once for each time `d` is among `ds`.
pub open spec fn day_hits(ds: Seq<u32>, d: u32, b: StartEnd) -> Seq<StartEnd>
    decreases ds.len(),
{
    if ds.len() == 0 {
        seq![]
    } else if ds.last() == d {
        day_hits(ds.drop_last(), d, b).push(b)
    } else {
        day_hits(ds.drop_last(), d, b)
    }
}

/// The meetings on weekday `d` of the meeting groups `ms`, in order.
pub open spec fn blocks_for(ms: Seq<MeetTime>, d: u32) -> Seq<StartEnd>
    decreases ms.len(),
{
    if ms.len() == 0 {
        seq![]
    } else {
        blocks_for(ms.drop_last(), d) + day_hits(days_of(ms.last().days@), d, block_of(ms.last()))
    }
}

/// A count as the listing writes it: the number `str::parse` reads, or zero where
/// it reads none.
pub open spec fn count_value(s: Seq<char>) -> u32 {
    match parsed_u32(s) {
        Some(v) => v,
        None => 0,
    }
}

fn read_count(s: &String) -> (r: u32)
    ensures
        r == count_value(s@),
{
    match parse_u32(s.as_str()) {
        Some(v) => v,
        None => 0,
    }
}

fn copy_block(b: &StartEnd) -> (r: StartEnd)
    ensures
        r == *b,
{
    StartEnd { building: b.building.clone(), start: b.start, end: b.end }
}

fn meetings_on(ms: &Vec<MeetTime>, d: u32) -> (r: Vec<StartEnd>)
    ensures
        r@ == blocks_for(ms@, d),
{
    let mut list: Vec<StartEnd> = Vec::new();
    let mut mi: usize = 0;
    while mi < ms.len()
        invariant
            0 <= mi <= ms.len(),
            list@ == blocks_for(ms@.subrange(0, mi as int), d),
        decreases ms.len() - mi,
    {
        proof {
            assert(ms@.subrange(0, mi + 1).drop_last() =~= ms@.subrange(0, mi as int));
        }
        let m: &MeetTime = &ms[mi];
        let days: Vec<u32> = get_days(m.days.clone());
        let b: StartEnd = StartEnd {
            building: m.building.clone(),
            start: to_military(m.start_time.clone()),
            end: to_military(m.end_time.clone()),
        };
        let ghost base = list@;
        let mut j: usize = 0;
        while j < days.len()
            invariant
                0 <= j <= days.len(),
                b == block_of(*m),
                list@ == base + day_hits(days@.subrange(0, j as int), d, b),
            decreases days.len() - j,
        {
            proof {
                assert(days@.subrange(0, j + 1).drop_last() =~= days@.subrange(0, j as int));
            }
            if days[j] == d {
                list.push(copy_block(&b));
            }
            j = j + 1;
            proof {
                assert(list@ =~= base + day_hits(days@.subrange(0, j as int), d, b));
            }
        }
        proof {
            assert(days@.subrange(0, days@.len() as int) =~= days@);
        }
        mi = mi + 1;
    }
    proof {
        assert(ms@.subrange(0, ms@.len() as int) =~= ms@);
    }
    list
}

/// Builds a section from its description in the course listing: the first
/// instructor (`Unknown` where none is listed) with no rating yet, the seat
/// counts read as numbers, and each meeting group placed on each of its days.
pub fn section_from_input(input: &SectionInput) -> (r: Section)
    ensures
        r.course@ == input.course@,
        r.section@ == input.number@,
        input.instructors@.len() == 0 ==> r.professor.name@ == seq!['U', 'n', 'k', 'n', 'o', 'w', 'n'],
        input.instructors@.len() > 0 ==> r.professor.name@ == input.instructors@[0]@,
        r.professor.rating == 0,
        r.seats[0] == count_value(input.seats@),
        r.seats[1] == count_value(input.open_seats@),
        r.seats[2] == count_value(input.waitlist@),
        forall|d: u32| #[trigger] r.classtimes@.contains_key(d) <==> (1 <= d <= 5 && blocks_for(input.meetings@, d).len() > 0),
        forall|d: u32| #[trigger] r.classtimes@.contains_key(d) ==> r.classtimes@[d]@ == blocks_for(input.meetings@, d),
{
    let mut classtimes: std::collections::HashMap<u32, Vec<StartEnd>> = std::collections::HashMap::new();
    let mut d: u32 = 1;
    while d < 6
        invariant
            1 <= d <= 6,
            forall|e: u32| #[trigger] classtimes@.contains_key(e) <==> (1 <= e < d && blocks_for(input.meetings@, e).len() > 0),
            forall|e: u32| #[trigger] classtimes@.contains_key(e) ==> classtimes@[e]@ == blocks_for(input.meetings@, e),
        decreases 6 - d,
    {
        let list: Vec<StartEnd> = meetings_on(&input.meetings, d);
        if list.len() > 0 {
            classtimes.insert(d, list);
        }
        d = d + 1;
    }
    let name: String = if input.instructors.len() == 0 {
        let mut cs: Vec<char> = Vec::new();
        cs.push('U');
        cs.push('n');
        cs.push('k');
        cs.push('n');
        cs.push('o');
        cs.push('w');
        cs.push('n');
        proof {
            assert(cs@ =~= seq!['U', 'n', 'k', 'n', 'o', 'w', 'n']);
        }
        crate::text::string_of(&cs)
    } else {
        input.instructors[0].clone()
    };
    let seats: [u32; 3] = [read_count(&input.seats), read_count(&input.open_seats), read_count(&input.waitlist)];
    Section {
        professor: ProfData { name, rating: 0 },
        classtimes,
        course: input.course.clone(),
        section: input.number.clone(),
        seats,
    }
}

} // verus!
