use std::collections::HashMap;

use class_scheduler::conflict::is_conflict;
use class_scheduler::display::{format_alternates, schedules_for_display};
use class_scheduler::listing::{retry_after_failure, section_from_input};
use class_scheduler::rank::{median, rating};
use class_scheduler::schedule::{get_potential_schedules, schedules_with_alternatives};
use class_scheduler::structs::{BuildingData, MeetTime, ProfData, Section, SectionInput, StartEnd};
use class_scheduler::time::{get_days, time_between, to_military, un_military_time};

fn block(building: &str, start: u32, end: u32) -> StartEnd {
    StartEnd { building: building.to_string(), start, end }
}

fn section(course: &str, id: &str, rating: u32, days: &[u32], b: StartEnd) -> Section {
    let mut classtimes: HashMap<u32, Vec<StartEnd>> = HashMap::new();
    for d in days {
        classtimes.insert(*d, vec![b.clone()]);
    }
    Section {
        professor: ProfData { name: "Prof".to_string(), rating },
        classtimes,
        course: course.to_string(),
        section: id.to_string(),
        seats: [30, 10, 0],
    }
}

fn campus() -> Vec<BuildingData> {
    vec![
        BuildingData { id: "X".to_string(), east: 0, north: 0 },
        BuildingData { id: "Y".to_string(), east: 300, north: 200 },
    ]
}

#[test]
fn time_between_counts_minutes() {
    assert_eq!(time_between(1050, 1100), 10);
    assert_eq!(time_between(900, 1715), 495);
}

#[test]
fn un_military_time_writes_twelve_hour_times() {
    assert_eq!(un_military_time(1330), "1:30pm");
    assert_eq!(un_military_time(930), "9:30am");
    assert_eq!(un_military_time(1200), "12:00pm");
    assert_eq!(un_military_time(1000), "10:00am");
    assert_eq!(un_military_time(1230), "12:30pm");
    assert_eq!(un_military_time(0), "12:00am");
    assert_eq!(un_military_time(45), "12:45am");
    assert_eq!(un_military_time(5), "12:05am");
}

#[test]
fn to_military_reads_clock_strings() {
    assert_eq!(to_military("1:30pm".to_string()), 1330);
    assert_eq!(to_military("12:15pm".to_string()), 1215);
    assert_eq!(to_military("9:00am".to_string()), 900);
    assert_eq!(to_military("TBA".to_string()), 0);
}

#[test]
fn get_days_reads_day_strings() {
    assert_eq!(get_days("MWF".to_string()), vec![1, 3, 5]);
    assert_eq!(get_days("TuTh".to_string()), vec![2, 4]);
    assert_eq!(get_days("MTuWThF".to_string()), vec![1, 2, 3, 4, 5]);
    assert_eq!(get_days(String::new()), Vec::<u32>::new());
}

#[test]
fn short_gap_across_campus_conflicts() {
    let a = section("AAA100", "0101", 0, &[1, 3], block("X", 1000, 1050));
    let b = section("BBB100", "0101", 0, &[1, 3], block("Y", 1100, 1150));
    assert!(is_conflict(&a, &b, &campus(), 1420, 900, 1700));
}

#[test]
fn twenty_minute_gap_across_campus_is_walkable() {
    let a = section("AAA100", "0101", 0, &[1, 3], block("X", 1000, 1050));
    let b = section("BBB100", "0101", 0, &[1, 3], block("Y", 1110, 1200));
    assert!(!is_conflict(&a, &b, &campus(), 1420, 900, 1700));
}

#[test]
fn conflict_is_symmetric_on_examples() {
    let a = section("AAA100", "0101", 0, &[1, 3], block("X", 1000, 1050));
    let b = section("BBB100", "0101", 0, &[1, 3], block("Y", 1100, 1150));
    let c = section("CCC100", "0101", 0, &[1], block("Y", 1110, 1200));
    for (p, q) in [(&a, &b), (&a, &c), (&b, &c)] {
        assert_eq!(
            is_conflict(p, q, &campus(), 1420, 900, 1700),
            is_conflict(q, p, &campus(), 1420, 900, 1700)
        );
    }
}

#[test]
fn section_conflicts_with_identical_copy() {
    let a = section("AAA100", "0101", 0, &[2], block("X", 1000, 1050));
    assert!(is_conflict(&a, &a.clone(), &campus(), 1420, 900, 1700));
}

#[test]
fn block_outside_window_conflicts() {
    let early = section("AAA100", "0101", 0, &[5], block("X", 800, 850));
    let other = section("BBB100", "0101", 0, &[5], block("X", 1300, 1350));
    assert!(is_conflict(&early, &other, &campus(), 1420, 900, 1700));
    assert!(is_conflict(&other, &early, &campus(), 1420, 900, 1700));
    let late = section("CCC100", "0101", 0, &[5], block("X", 1630, 1720));
    assert!(is_conflict(&late, &other, &campus(), 1420, 900, 1700));
}

#[test]
fn shared_instant_and_overlap_conflict() {
    let a = section("AAA100", "0101", 0, &[1], block("X", 1000, 1050));
    let touching = section("BBB100", "0101", 0, &[1], block("X", 1050, 1150));
    let overlapping = section("CCC100", "0101", 0, &[1], block("X", 1030, 1120));
    assert!(is_conflict(&a, &touching, &campus(), 1420, 900, 1700));
    assert!(is_conflict(&a, &overlapping, &campus(), 1420, 900, 1700));
}

#[test]
fn unknown_building_is_not_walkable() {
    let a = section("AAA100", "0101", 0, &[1], block("X", 1000, 1050));
    let b = section("BBB100", "0101", 0, &[1], block("Nowhere", 1200, 1250));
    assert!(is_conflict(&a, &b, &campus(), 1420, 900, 1700));
}

#[test]
fn different_days_never_conflict() {
    let a = section("AAA100", "0101", 0, &[1], block("X", 1000, 1050));
    let b = section("BBB100", "0101", 0, &[2], block("X", 1000, 1050));
    assert!(!is_conflict(&a, &b, &campus(), 1420, 900, 1700));
}

#[test]
fn synthesis_keeps_every_compatible_combination() {
    let c1 = vec![
        section("AAA100", "0101", 0, &[1], block("X", 1000, 1050)),
        section("AAA100", "0201", 0, &[1], block("X", 1300, 1350)),
    ];
    let c2 = vec![
        section("BBB100", "0101", 0, &[1], block("X", 1000, 1050)),
        section("BBB100", "0201", 0, &[1], block("X", 1400, 1450)),
    ];
    let result = get_potential_schedules(vec![("AAA100".to_string(), c1), ("BBB100".to_string(), c2)], &campus());
    assert_eq!(result.len(), 3);
    for sched in &result {
        assert_eq!(sched.len(), 2);
        assert_eq!(sched[0].course, "AAA100");
        assert_eq!(sched[1].course, "BBB100");
        assert!(!is_conflict(&sched[0], &sched[1], &campus(), 1420, 900, 1700));
    }
}

#[test]
fn synthesis_of_nothing_is_empty() {
    assert!(get_potential_schedules(Vec::new(), &campus()).is_empty());
    let c1 = vec![section("AAA100", "0101", 0, &[1], block("X", 1000, 1050))];
    assert!(get_potential_schedules(vec![("AAA100".to_string(), c1), ("BBB100".to_string(), Vec::new())], &campus()).is_empty());
}

#[test]
fn required_course_has_no_alternates() {
    let a = section("AAA100", "0101", 0, &[1], block("X", 1000, 1050));
    let alts = vec![("ALT100".to_string(), vec![section("ALT100", "0101", 0, &[2], block("X", 1000, 1050))])];
    let found = a.find_alt(vec![a.clone()], &campus(), 1420, 900, 1700, &alts, &vec!["AAA100".to_string()]);
    assert!(found.is_empty());
    let found = a.find_alt(vec![a.clone()], &campus(), 1420, 900, 1700, &alts, &Vec::new());
    assert_eq!(found.len(), 1);
    assert_eq!(found[0].course, "ALT100");
}

#[test]
fn alternates_must_fit_the_rest_of_the_schedule() {
    let a = section("AAA100", "0101", 0, &[1], block("X", 1000, 1050));
    let b = section("BBB100", "0101", 0, &[1], block("X", 1300, 1350));
    let alts = vec![(
        "ALT100".to_string(),
        vec![
            section("ALT100", "0101", 0, &[1], block("X", 1000, 1050)),
            section("ALT100", "0201", 0, &[1], block("X", 1310, 1400)),
        ],
    )];
    let found = a.find_alt(vec![a.clone(), b.clone()], &campus(), 1420, 900, 1700, &alts, &Vec::new());
    assert_eq!(found.len(), 1);
    assert_eq!(found[0].section, "0101");
}

#[test]
fn median_of_counts_in_hundredths() {
    assert_eq!(median(&vec![3, 1, 2]), 200);
    assert_eq!(median(&vec![4, 1, 2, 3]), 250);
    assert_eq!(median(&Vec::new()), 0);
}

#[test]
fn rating_adds_its_three_terms() {
    let a = section("AAA100", "0101", 400, &[1], block("X", 1000, 1050));
    let alt1 = section("ALT100", "0101", 300, &[2], block("X", 1000, 1050));
    let alt2 = section("ALT100", "0201", 100, &[2], block("X", 1100, 1150));
    let sched = vec![(a, vec![alt1, alt2])];
    let all = vec!["ALT100".to_string(), "ALT200".to_string()];
    // 400 + 200 + (100 + median of [2, 0] = 100)
    assert_eq!(rating(&sched, &all), 800);
}

#[test]
fn raising_a_rating_never_lowers_the_score() {
    let alt = section("ALT100", "0101", 300, &[2], block("X", 1000, 1050));
    let low = vec![(section("AAA100", "0101", 100, &[1], block("X", 1000, 1050)), vec![alt.clone()])];
    let high = vec![(section("AAA100", "0101", 450, &[1], block("X", 1000, 1050)), vec![alt])];
    let all = vec!["ALT100".to_string()];
    assert!(rating(&high, &all) >= rating(&low, &all));
}

#[test]
fn many_alternate_sections_compact_to_one_entry() {
    let mut alts = Vec::new();
    for i in 0..6 {
        alts.push(section("ALT100", &format!("0{}01", i), 0, &[1], block("X", 1000, 1050)));
    }
    alts.push(section("ALT200", "0101", 0, &[1], block("X", 1000, 1050)));
    assert_eq!(format_alternates(&alts, 4), "ALT100: XXXX, ALT200: 0101, ");
}

#[test]
fn few_alternate_sections_are_listed() {
    let alts = vec![
        section("ALT200", "0201", 0, &[1], block("X", 1000, 1050)),
        section("ALT200", "0101", 0, &[1], block("X", 1000, 1050)),
    ];
    assert_eq!(format_alternates(&alts, 4), "ALT200: 0101, ALT200: 0201, ");
}

#[test]
fn humanized_times_group_days() {
    let s = section("AAA100", "0101", 0, &[1, 3, 5], block("X", 1000, 1050));
    assert_eq!(s.humanize_times(), vec!["MWF 10:00am-10:50am in X".to_string()]);
}

#[test]
fn ranked_schedules_come_best_first() {
    let c1 = vec![
        section("AAA100", "0101", 100, &[1], block("X", 1000, 1050)),
        section("AAA100", "0201", 500, &[1], block("X", 1300, 1350)),
    ];
    let schedules = get_potential_schedules(vec![("AAA100".to_string(), c1)], &campus());
    let ranked = schedules_with_alternatives(schedules, &campus(), &Vec::new(), &Vec::new());
    assert_eq!(ranked.len(), 2);
    assert_eq!(ranked[0][0].0.section, "0201");
    assert_eq!(ranked[1][0].0.section, "0101");
    let shown = schedules_for_display(ranked);
    assert_eq!(shown[0][0].alternates, "N/A");
    assert_eq!(shown[0][0].classtimes, vec!["M 1:00pm-1:50pm in X".to_string()]);
}

#[test]
fn listed_section_is_built() {
    let input = SectionInput {
        course: "AAA100".to_string(),
        number: "0101".to_string(),
        seats: "30".to_string(),
        meetings: vec![MeetTime {
            days: "TuTh".to_string(),
            building: "X".to_string(),
            start_time: "2:00pm".to_string(),
            end_time: "3:15pm".to_string(),
        }],
        open_seats: "5".to_string(),
        waitlist: "none".to_string(),
        instructors: Vec::new(),
    };
    let s = section_from_input(&input);
    assert_eq!(s.professor.name, "Unknown");
    assert_eq!(s.seats, [30, 5, 0]);
    assert_eq!(s.classtimes.len(), 2);
    assert_eq!(s.classtimes[&2][0].start, 1400);
    assert_eq!(s.classtimes[&4][0].end, 1515);
}

#[test]
fn failed_course_is_retried_three_times() {
    assert!(retry_after_failure(0));
    assert!(retry_after_failure(2));
    assert!(!retry_after_failure(3));
}

#[test]
fn unlisted_shared_building_is_not_walkable() {
    let a = section("AAA100", "0101", 0, &[1], block("Nowhere", 1000, 1050));
    let b = section("BBB100", "0101", 0, &[1], block("Nowhere", 1200, 1250));
    assert!(is_conflict(&a, &b, &campus(), 1420, 900, 1700));
}

#[test]
fn unparsable_time_gives_zero() {
    assert_eq!(to_military("p".to_string()), 0);
    assert_eq!(to_military("pm".to_string()), 0);
    assert_eq!(to_military("99999999999pm".to_string()), 0);
    assert_eq!(to_military("10:50am".to_string()), 1050);
    assert_eq!(to_military("12:30pm".to_string()), 1230);
}

#[test]
fn clock_strings_round_trip() {
    for t in [100u32, 930, 1050, 1200, 1259, 1300, 1745, 2359] {
        assert_eq!(to_military(un_military_time(t)), t);
    }
}

#[test]
fn schedules_do_not_depend_on_course_order() {
    let a = vec![section("AAA100", "0101", 0, &[1], block("X", 1000, 1050))];
    let b = vec![section("BBB100", "0101", 0, &[1], block("X", 1300, 1350))];
    let ka = ("AAA100".to_string(), a);
    let kb = ("BBB100".to_string(), b);
    let ab = get_potential_schedules(vec![ka.clone(), kb.clone()], &campus());
    let ba = get_potential_schedules(vec![kb, ka], &campus());
    assert_eq!(ab.len(), 1);
    assert_eq!(ba.len(), 1);
    assert_eq!(ba[0][0].course, "AAA100");
    assert_eq!(ba[0][1].course, "BBB100");
}

#[test]
fn alternates_come_by_course_then_section() {
    let a = section("AAA100", "0101", 0, &[1], block("X", 1000, 1050));
    let alts = vec![
        (
            "ZZZ100".to_string(),
            vec![
                section("ZZZ100", "0201", 0, &[2], block("X", 1000, 1050)),
                section("ZZZ100", "0101", 0, &[2], block("X", 1100, 1150)),
            ],
        ),
        ("ALT100".to_string(), vec![section("ALT100", "0301", 0, &[2], block("X", 1200, 1250))]),
    ];
    let found = a.find_alt(vec![a.clone()], &campus(), 1420, 900, 1700, &alts, &Vec::new());
    let ids: Vec<(String, String)> = found.iter().map(|s| (s.course.clone(), s.section.clone())).collect();
    assert_eq!(
        ids,
        vec![
            ("ALT100".to_string(), "0301".to_string()),
            ("ZZZ100".to_string(), "0101".to_string()),
            ("ZZZ100".to_string(), "0201".to_string()),
        ]
    );
}

#[test]
fn ranked_schedules_are_ordered_by_course() {
    let a = section("AAA100", "0101", 0, &[1], block("X", 1000, 1050));
    let b = section("BBB100", "0101", 0, &[1], block("X", 1300, 1350));
    let ranked = schedules_with_alternatives(vec![vec![b, a]], &campus(), &Vec::new(), &Vec::new());
    assert_eq!(ranked[0][0].0.course, "AAA100");
    assert_eq!(ranked[0][1].0.course, "BBB100");
}

#[test]
fn seat_counts_with_plus_sign_are_read() {
    let input = SectionInput {
        course: "AAA100".to_string(),
        number: "0101".to_string(),
        seats: "+5".to_string(),
        meetings: Vec::new(),
        open_seats: "+".to_string(),
        waitlist: "007".to_string(),
        instructors: vec!["Ada".to_string()],
    };
    let s = section_from_input(&input);
    assert_eq!(s.seats, [5, 0, 7]);
    assert_eq!(s.professor.name, "Ada");
    assert!(s.classtimes.is_empty());
}

#[test]
fn section_with_unknown_time_is_displayed() {
    let s = section("AAA100", "0101", 0, &[1], block("X", 0, 0));
    let shown = schedules_for_display(vec![vec![(s, Vec::new())]]);
    assert_eq!(shown[0][0].classtimes, vec!["M 12:00am-12:00am in X".to_string()]);
    assert_eq!(shown[0][0].alternates, "N/A");
}

#[test]
fn alternate_course_without_sections_counts_in_ranking() {
    let a = section("AAA100", "0101", 400, &[1], block("X", 1000, 1050));
    let alt = vec![
        section("ALT100", "0101", 300, &[2], block("X", 1000, 1050)),
        section("ALT100", "0201", 100, &[2], block("X", 1100, 1150)),
    ];
    let catalog = vec![("ALT100".to_string(), alt), ("ALT200".to_string(), Vec::new())];
    let ranked = schedules_with_alternatives(vec![vec![a]], &campus(), &catalog, &Vec::new());
    let all = vec!["ALT100".to_string(), "ALT200".to_string()];
    assert_eq!(rating(&ranked[0], &all), 800);
}
