use vstd::prelude::*;

use std::collections::HashMap;

verus! {

/// Meetings of one section, by weekday (Monday 1 to Friday 5).
pub type Classtimes = HashMap<u32, Vec<StartEnd>>;

/// Sections of one course.
pub type SectionMap = Vec<Section>;

/// Courses, each given by its identifier and its sections.
pub type CourseMap = Vec<(String, SectionMap)>;

/// One section of each course, in the order of the courses.
pub type Schedule = Vec<Section>;

/// A schedule where each section carries the sections that could stand in for it.
pub type ScheduleWithAlternates = Vec<(Section, Vec<Section>)>;

/// Where the buildings stand.
pub type BuildingMap = Vec<BuildingData>;

/// Meeting times rendered for people.
pub type ClasstimesForHumans = Vec<String>;

/// A schedule rendered for people.
pub type DisplaySchedule = Vec<DisplaySection>;

/// One contiguous meeting: a building and `HHMM` start and end times.
#[derive(Clone, Debug)]
pub struct StartEnd {
    pub building: String,
    pub start: u32,
    pub end: u32,
}

/// A building's position on a local street grid, in meters east and north of a
/// fixed origin.
#[derive(Clone, Debug)]
pub struct BuildingData {
    pub id: String,
    pub east: i32,
    pub north: i32,
}

/// An instructor and their rating in hundredths of a point (zero when unknown).
#[derive(Clone, Debug)]
pub struct ProfData {
    pub name: String,
    pub rating: u32,
}

#[derive(Clone, Debug)]
pub struct Section {
    pub professor: ProfData,
    pub classtimes: Classtimes,
    pub course: String,
    pub section: String,
    /// Total, open, waitlisted.
    pub seats: [u32; 3],
}

/// A section as shown to people, with its alternates summed up in one line.
#[derive(Clone, Debug)]
pub struct DisplaySection {
    pub professor: ProfData,
    pub classtimes: ClasstimesForHumans,
    pub course: String,
    pub section: String,
    /// Total, open, waitlisted.
    pub seats: [u32; 3],
    pub alternates: String,
}

/// A section as the course listing service describes it.
#[derive(Clone, Debug)]
pub struct SectionInput {
    pub course: String,
    pub number: String,
    pub seats: String,
    pub meetings: Vec<MeetTime>,
    pub open_seats: String,
    pub waitlist: String,
    pub instructors: Vec<String>,
}

/// One meeting group of a listed section: its days, building and clock times.
#[derive(Clone, Debug)]
pub struct MeetTime {
    pub days: String,
    pub building: String,
    pub start_time: String,
    pub end_time: String,
}

/// What a section holds, as values.
pub struct SectionView {
    pub professor: Seq<char>,
    pub rating: u32,
    pub classtimes: Map<u32, Vec<StartEnd>>,
    pub course: Seq<char>,
    pub section: Seq<char>,
    pub seats: [u32; 3],
}

impl View for Section {
    type V = SectionView;

    open spec fn view(&self) -> SectionView {
        SectionView {
            professor: self.professor.name@,
            rating: self.professor.rating,
            classtimes: self.classtimes@,
            course: self.course@,
            section: self.section@,
            seats: self.seats,
        }
    }
}

/// The views of a sequence of sections.
pub open spec fn views(s: Seq<Section>) -> Seq<SectionView> {
    s.map_values(|x: Section| x@)
}

impl Section {
    /// A section holding the same values.
    pub fn copy(&self) -> (r: Section)
        ensures
            r@ == self@,
    {
        Section {
            professor: ProfData { name: self.professor.name.clone(), rating: self.professor.rating },
            classtimes: self.classtimes.clone(),
            course: self.course.clone(),
            section: self.section.clone(),
            seats: self.seats,
        }
    }
}

impl PartialEq for Section {
    fn eq(&self, other: &Section) -> (r: bool) {
        self.course == other.course && self.section == other.section
    }
}

impl vstd::std_specs::cmp::PartialEqSpecImpl for Section {
    open spec fn obeys_eq_spec() -> bool {
        true
    }

    open spec fn eq_spec(&self, other: &Section) -> bool {
        self.course@ == other.course@ && self.section@ == other.section@
    }
}

} // verus!
