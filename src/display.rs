use vstd::prelude::*;
use vstd::relations::sorted_by;

use crate::conflict::day_blocks;
use crate::rank::{count_course, count_of, distinct, has_id, strs};
use crate::structs::{DisplaySection, ProfData, Section, SectionView, StartEnd, views};
use crate::time::{human_time, un_military_time};
use crate::text::{chars_of, string_of};

verus! {

/// Whether `a` comes no later than `b` in the lexicographic order of their
/// characters (code points), a prefix first.
pub open spec fn chars_le(a: Seq<char>, b: Seq<char>) -> bool
    decreases a.len(),
{
    if a.len() == 0 {
        true
    } else if b.len() == 0 {
        false
    } else if a[0] != b[0] {
        a[0] < b[0]
    } else {
        chars_le(a.drop_first(), b.drop_first())
    }
}

/// Relies on `slice::sort` for `String`: the same strings, ordered as `Ord` for
/// `str` orders them, lexicographically by their bytes, which in UTF-8 is the
/// order of their code points.
#[verifier::external_body]
pub(crate) fn sort_strings(v: &mut Vec<String>)
    ensures
        strs(final(v)@).to_multiset() == strs(old(v)@).to_multiset(),
        sorted_by(strs(final(v)@), |a: Seq<char>, b: Seq<char>| chars_le(a, b)),
{
    v.sort();
}

/// `"<course>: XXXX, "`, standing for all sections of a course.
pub open spec fn compact_entry(course: Seq<char>) -> Seq<char> {
    course + seq![':', ' ', 'X', 'X', 'X', 'X', ',', ' ']
}

/// `"<course>: <section>, "`.
pub open spec fn section_entry(course: Seq<char>, section: Seq<char>) -> Seq<char> {
    course + seq![':', ' '] + section + seq![',', ' ']
}

/// The entries for the first `n` of `full`: a course with more than `threshold`
/// sections in `full` gives one compact entry, at its first section; every other
/// section gives an entry of its own.
pub open spec fn entries_upto(full: Seq<SectionView>, n: int, threshold: nat) -> Seq<Seq<char>>
    decreases n,
{
    if n <= 0 {
        seq![]
    } else {
        let prev = entries_upto(full, n - 1, threshold);
        let x = full[n - 1];
        if count_course(full, x.course) > threshold {
            if crate::rank::course_ids(full.subrange(0, n - 1)).contains(x.course) {
                prev
            } else {
                prev.push(compact_entry(x.course))
            }
        } else {
            prev.push(section_entry(x.course, x.section))
        }
    }
}

/// The entries of all of `full`.
pub open spec fn entries(full: Seq<SectionView>, threshold: nat) -> Seq<Seq<char>> {
    entries_upto(full, full.len() as int, threshold)
}

/// The strings one after the other.
pub open spec fn concat(e: Seq<Seq<char>>) -> Seq<char>
    decreases e.len(),
{
    if e.len() == 0 {
        seq![]
    } else {
        concat(e.drop_last()) + e.last()
    }
}

fn push_str(out: &mut Vec<char>, s: &String)
    ensures
        final(out)@ == old(out)@ + s@,
{
    let cs: Vec<char> = chars_of(s.as_str());
    let mut i: usize = 0;
    while i < cs.len()
        invariant
            0 <= i <= cs.len(),
            cs@ == s@,
            out@ == old(out)@ + cs@.subrange(0, i as int),
        decreases cs.len() - i,
    {
        out.push(cs[i]);
        i = i + 1;
        proof {
            assert(out@ =~= old(out)@ + cs@.subrange(0, i as int));
        }
    }
    proof {
        assert(cs@.subrange(0, cs@.len() as int) =~= cs@);
    }
}

fn seen_before(a: &Vec<Section>, n: usize) -> (r: bool)
    requires
        n < a@.len(),
    ensures
        r == crate::rank::course_ids(views(a@).subrange(0, n as int)).contains(a@[n as int].course@),
{
    let ghost ids = crate::rank::course_ids(views(a@).subrange(0, n as int));
    let mut i: usize = 0;
    while i < n
        invariant
            0 <= i <= n < a@.len(),
            ids == crate::rank::course_ids(views(a@).subrange(0, n as int)),
            forall|j: int| 0 <= j < i ==> ids[j] != a@[n as int].course@,
        decreases n - i,
    {
        if a[i].course == a[n].course {
            assert(ids[i as int] == a@[n as int].course@);
            return true;
        }
        i = i + 1;
    }
    false
}

/// `t` is the entries of `sections` under `threshold`, ordered by their characters
/// and written one after the other.
pub open spec fn formatted(sections: Seq<SectionView>, threshold: nat, t: Seq<char>) -> bool {
    exists|e: Seq<Seq<char>>|
        #![trigger concat(e)]
        e.to_multiset() == entries(sections, threshold).to_multiset() && sorted_by(
            e,
            |a: Seq<char>, b: Seq<char>| chars_le(a, b),
        ) && t == concat(e)
}

///Formats alternates to be nice on the eyes
pub fn format_alternates(sections: &Vec<Section>, threshold: usize) -> (r: String)
    ensures
        formatted(views(sections@), threshold as nat, r@),
{
    let ghost full = views(sections@);
    let mut output: Vec<String> = Vec::new();
    let mut i: usize = 0;
    while i < sections.len()
        invariant
            0 <= i <= sections.len(),
            full == views(sections@),
            strs(output@) == entries_upto(full, i as int, threshold as nat),
        decreases sections.len() - i,
    {
        let s: &Section = &sections[i];
        let count: u64 = count_of(sections, &s.course);
        proof {
            assert(full[i as int] == s@);
            assert(views(sections@).subrange(0, i as int) == full.subrange(0, i as int));
        }
        if count > threshold as u64 {
            if !seen_before(sections, i) {
                let mut cs: Vec<char> = Vec::new();
                push_str(&mut cs, &s.course);
                cs.push(':');
                cs.push(' ');
                cs.push('X');
                cs.push('X');
                cs.push('X');
                cs.push('X');
                cs.push(',');
                cs.push(' ');
                proof {
                    assert(cs@ =~= compact_entry(s.course@));
                }
                let ghost before = output@;
                output.push(string_of(&cs));
                proof {
                    assert(strs(output@) =~= strs(before).push(compact_entry(s.course@)));
                }
            }
        } else {
            let mut cs: Vec<char> = Vec::new();
            push_str(&mut cs, &s.course);
            cs.push(':');
            cs.push(' ');
            push_str(&mut cs, &s.section);
            cs.push(',');
            cs.push(' ');
            proof {
                assert(cs@ =~= section_entry(s.course@, s.section@));
            }
            let ghost before = output@;
            output.push(string_of(&cs));
            proof {
                assert(strs(output@) =~= strs(before).push(section_entry(s.course@, s.section@)));
            }
        }
        i = i + 1;
    }
    let ghost unsorted = output@;
    sort_strings(&mut output);
    let mut out: Vec<char> = Vec::new();
    let mut k: usize = 0;
    while k < output.len()
        invariant
            0 <= k <= output.len(),
            out@ == concat(strs(output@.subrange(0, k as int))),
        decreases output.len() - k,
    {
        push_str(&mut out, &output[k]);
        proof {
            assert(strs(output@.subrange(0, k + 1)).drop_last() =~= strs(output@.subrange(0, k as int)));
        }
        k = k + 1;
    }
    proof {
        assert(output@.subrange(0, output@.len() as int) =~= output@);
    }
    string_of(&out)
}

} // verus!

verus! {

/// `"<start>-<end> in <building>"`, times written for people.
pub open spec fn block_label(b: StartEnd) -> Seq<char> {
    human_time(b.start) + seq!['-'] + human_time(b.end) + seq![' ', 'i', 'n', ' '] + b.building@
}

/// Short name of a weekday.
pub open spec fn day_name(d: u32) -> Seq<char> {
    if d == 1 {
        seq!['M']
    } else if d == 2 {
        seq!['T', 'u']
    } else if d == 3 {
        seq!['W']
    } else if d == 4 {
        seq!['T', 'h']
    } else {
        seq!['F']
    }
}

/// Each meeting on weekdays before `d`, as its day and label, day by day.
pub open spec fn tagged_upto(s: SectionView, d: u32) -> Seq<(u32, Seq<char>)>
    decreases d,
{
    if d <= 1 {
        seq![]
    } else {
        tagged_upto(s, (d - 1) as u32) + day_blocks(s, (d - 1) as u32).map_values(
            |b: StartEnd| ((d - 1) as u32, block_label(b)),
        )
    }
}

/// Each meeting of the week, as its day and label.
pub open spec fn tagged(s: SectionView) -> Seq<(u32, Seq<char>)> {
    tagged_upto(s, 6)
}

/// Names of the weekdays before `d` on which a meeting has label `l`, in order.
pub open spec fn days_with(s: SectionView, l: Seq<char>, d: u32) -> Seq<char>
    decreases d,
{
    if d <= 1 {
        seq![]
    } else if tagged(s).contains(((d - 1) as u32, l)) {
        days_with(s, l, (d - 1) as u32) + day_name((d - 1) as u32)
    } else {
        days_with(s, l, (d - 1) as u32)
    }
}

/// The meetings of a section for people: one line per distinct time and place,
/// `"<days> <label>"`, in the order they first come in the week.
pub open spec fn human_meetings(s: SectionView) -> Seq<Seq<char>> {
    distinct(tagged(s).map_values(|p: (u32, Seq<char>)| p.1)).map_values(
        |l: Seq<char>| days_with(s, l, 6) + seq![' '] + l,
    )
}

fn label_of(b: &StartEnd) -> (r: String)
    ensures
        r@ == block_label(*b),
{
    let mut cs: Vec<char> = Vec::new();
    push_str(&mut cs, &un_military_time(b.start));
    cs.push('-');
    push_str(&mut cs, &un_military_time(b.end));
    cs.push(' ');
    cs.push('i');
    cs.push('n');
    cs.push(' ');
    push_str(&mut cs, &b.building);
    proof {
        assert(cs@ =~= block_label(*b));
    }
    string_of(&cs)
}

fn push_day_name(out: &mut Vec<char>, d: u32)
    ensures
        final(out)@ == old(out)@ + day_name(d),
{
    if d == 1 {
        out.push('M');
    } else if d == 2 {
        out.push('T');
        out.push('u');
    } else if d == 3 {
        out.push('W');
    } else if d == 4 {
        out.push('T');
        out.push('h');
    } else {
        out.push('F');
    }
    proof {
        assert(final(out)@ =~= old(out)@ + day_name(d));
    }
}

pub open spec fn tag_views(t: Seq<(u32, String)>) -> Seq<(u32, Seq<char>)> {
    t.map_values(|p: (u32, String)| (p.0, p.1@))
}

fn has_tag(tags: &Vec<(u32, String)>, d: u32, l: &String) -> (r: bool)
    ensures
        r == tag_views(tags@).contains((d, l@)),
{
    let ghost m = tag_views(tags@);
    let mut i: usize = 0;
    while i < tags.len()
        invariant
            0 <= i <= tags.len(),
            m == tag_views(tags@),
            forall|j: int| 0 <= j < i ==> m[j] != (d, l@),
        decreases tags.len() - i,
    {
        if tags[i].0 == d && tags[i].1 == *l {
            assert(m[i as int] == (d, l@));
            return true;
        }
        i = i + 1;
    }
    false
}

} // verus!

verus! {

impl Section {
    ///Takes class times stored with numbers for computers to stored by days for humans
    pub fn humanize_times(&self) -> (r: Vec<String>)
        ensures
            strs(r@) == human_meetings(self@),
    {
        let mut tags: Vec<(u32, String)> = Vec::new();
        let mut day: u32 = 1;
        while day < 6
            invariant
                1 <= day <= 6,
                tag_views(tags@) == tagged_upto(self@, day),
            decreases 6 - day,
        {
            match self.classtimes.get(&day) {
                Some(times) => {
                    assert(times@ == day_blocks(self@, day));
                    let ghost base = tag_views(tags@);
                    let mut i: usize = 0;
                    while i < times.len()
                        invariant
                            0 <= i <= times.len(),
                            1 <= day < 6,
                                        times@ == day_blocks(self@, day),
                            tag_views(tags@) == base + times@.subrange(0, i as int).map_values(
                                |b: StartEnd| (day, block_label(b)),
                            ),
                        decreases times.len() - i,
                    {
                        assert(times@[i as int] == day_blocks(self@, day)[i as int]);
                        let l: String = label_of(&times[i]);
                        let ghost before = tags@;
                        let ghost lv = l@;
                        tags.push((day, l));
                        i = i + 1;
                        proof {
                            assert(tag_views(tags@) =~= tag_views(before).push((day, lv)));
                            assert(times@.subrange(0, i as int).map_values(|b: StartEnd| (day, block_label(b)))
                                =~= times@.subrange(0, i - 1).map_values(|b: StartEnd| (day, block_label(b))).push((day, lv)));
                            assert(tag_views(tags@) =~= base + times@.subrange(0, i as int).map_values(
                                |b: StartEnd| (day, block_label(b)),
                            ));
                        }
                    }
                    proof {
                        assert(times@.subrange(0, times@.len() as int) =~= times@);
                        assert(tag_views(tags@) =~= tagged_upto(self@, (day + 1) as u32));
                    }
                },
                None => {
                    proof {
                        assert(day_blocks(self@, day) =~= seq![]);
                        assert(tagged_upto(self@, (day + 1) as u32) =~= tagged_upto(self@, day));
                    }
                },
            }
            day = day + 1;
        }
        let ghost labels = tag_views(tags@).map_values(|p: (u32, Seq<char>)| p.1);
        let mut keys: Vec<String> = Vec::new();
        let mut i: usize = 0;
        while i < tags.len()
            invariant
                0 <= i <= tags.len(),
                labels == tag_views(tags@).map_values(|p: (u32, Seq<char>)| p.1),
                strs(keys@) == distinct(labels.subrange(0, i as int)),
            decreases tags.len() - i,
        {
            proof {
                assert(labels.subrange(0, i + 1).drop_last() =~= labels.subrange(0, i as int));
                assert(labels.subrange(0, i + 1).last() == tags@[i as int].1@);
            }
            if !has_id(&keys, &tags[i].1) {
                let ghost before = keys@;
                keys.push(tags[i].1.clone());
                proof {
                    assert(strs(keys@) =~= strs(before).push(tags@[i as int].1@));
                }
            }
            i = i + 1;
        }
        proof {
            assert(labels.subrange(0, labels.len() as int) =~= labels);
        }
        let ghost want = human_meetings(self@);
        let mut out: Vec<String> = Vec::new();
        let mut k: usize = 0;
        while k < keys.len()
            invariant
                0 <= k <= keys.len(),
                tag_views(tags@) == tagged(self@),
                strs(keys@) == distinct(tag_views(tags@).map_values(|p: (u32, Seq<char>)| p.1)),
                want == human_meetings(self@),
                out@.len() == k,
                forall|j: int| 0 <= j < k ==> #[trigger] strs(out@)[j] == want[j],
            decreases keys.len() - k,
        {
            let mut cs: Vec<char> = Vec::new();
            let mut d: u32 = 1;
            while d < 6
                invariant
                    1 <= d <= 6,
                    0 <= k < keys.len(),
                    tag_views(tags@) == tagged(self@),
                    cs@ == days_with(self@, keys@[k as int]@, d),
                decreases 6 - d,
            {
                if has_tag(&tags, d, &keys[k]) {
                    push_day_name(&mut cs, d);
                }
                d = d + 1;
            }
            cs.push(' ');
            push_str(&mut cs, &keys[k]);
            let ghost before = out@;
            out.push(string_of(&cs));
            proof {
                assert(strs(keys@)[k as int] == keys@[k as int]@);
                assert forall|j: int| 0 <= j < k + 1 implies #[trigger] strs(out@)[j] == want[j] by {
                    if j < k {
                        assert(out@[j] == before[j]);
                        assert(strs(before)[j] == want[j]);
                    } else {
                        assert(strs(out@)[j] =~= want[j]);
                    }
                }
            }
            k = k + 1;
        }
        proof {
            assert(strs(out@) =~= want);
        }
        out
    }
}

} // verus!

verus! {

/// More alternate sections of one course than this are summed up in one entry.
pub const ALTERNATE_THRESHOLD: usize = 4;

/// What the line of alternates shows: `N/A` where there are none.
pub open spec fn alternates_line(a: Seq<SectionView>, t: Seq<char>) -> bool {
    if a.len() == 0 {
        t == seq!['N', '/', 'A']
    } else {
        formatted(a, ALTERNATE_THRESHOLD as nat, t)
    }
}

/// `d` shows section `s` with alternates `a`.
pub open spec fn shows(d: DisplaySection, s: SectionView, a: Seq<SectionView>) -> bool {
    &&& d.professor.name@ == s.professor
    &&& d.professor.rating == s.rating
    &&& strs(d.classtimes@) == human_meetings(s)
    &&& d.course@ == s.course
    &&& d.section@ == s.section
    &&& d.seats == s.seats
    &&& alternates_line(a, d.alternates@)
}

fn display_section(s: &Section, a: &Vec<Section>) -> (r: DisplaySection)
    ensures
        shows(r, s@, views(a@)),
{
    let alternates: String = if a.len() == 0 {
        let mut cs: Vec<char> = Vec::new();
        cs.push('N');
        cs.push('/');
        cs.push('A');
        proof {
            assert(cs@ =~= seq!['N', '/', 'A']);
        }
        string_of(&cs)
    } else {
        format_alternates(a, ALTERNATE_THRESHOLD)
    };
    DisplaySection {
        professor: ProfData { name: s.professor.name.clone(), rating: s.professor.rating },
        classtimes: s.humanize_times(),
        course: s.course.clone(),
        section: s.section.clone(),
        seats: s.seats,
        alternates,
    }
}

///Formats schedules with alternates for display
pub fn schedules_for_display(schedules_with_alternates: Vec<Vec<(Section, Vec<Section>)>>) -> (r: Vec<Vec<DisplaySection>>)
    ensures
        r@.len() == schedules_with_alternates@.len(),
        forall|k: int| 0 <= k < r@.len() ==> (#[trigger] r@[k])@.len() == schedules_with_alternates@[k]@.len(),
        forall|k: int, m: int|
            0 <= k < r@.len() && 0 <= m < r@[k]@.len() ==> shows(
                #[trigger] r@[k]@[m],
                schedules_with_alternates@[k]@[m].0@,
                views(schedules_with_alternates@[k]@[m].1@),
            ),
{
    let sw = &schedules_with_alternates;
    let mut all: Vec<Vec<DisplaySection>> = Vec::new();
    let mut k: usize = 0;
    while k < sw.len()
        invariant
            0 <= k <= sw.len(),
            all@.len() == k,
            forall|q: int| 0 <= q < k ==> (#[trigger] all@[q])@.len() == sw@[q]@.len(),
            forall|q: int, m: int|
                0 <= q < k && 0 <= m < all@[q]@.len() ==> shows(#[trigger] all@[q]@[m], sw@[q]@[m].0@, views(sw@[q]@[m].1@)),
        decreases sw.len() - k,
    {
        let mut row: Vec<DisplaySection> = Vec::new();
        let mut m: usize = 0;
        while m < sw[k].len()
            invariant
                0 <= k < sw.len(),
                0 <= m <= sw@[k as int]@.len(),
                row@.len() == m,
                forall|j: int| 0 <= j < m ==> shows(#[trigger] row@[j], sw@[k as int]@[j].0@, views(sw@[k as int]@[j].1@)),
            decreases sw@[k as int]@.len() - m,
        {
            let d: DisplaySection = display_section(&sw[k][m].0, &sw[k][m].1);
            row.push(d);
            m = m + 1;
        }
        let ghost before = all@;
        all.push(row);
        proof {
            assert forall|q: int, m: int|
                0 <= q < k + 1 && 0 <= m < all@[q]@.len() implies shows(#[trigger] all@[q]@[m], sw@[q]@[m].0@, views(sw@[q]@[m].1@)) by {
                if q < k {
                    assert(all@[q] == before[q]);
                }
            }
        }
        k = k + 1;
    }
    all
}

} // verus!
