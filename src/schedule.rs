use vstd::prelude::*;

use vstd::relations::sorted_by;

use crate::conflict::{is_conflict, lemma_conflict_symmetric, sections_conflict};
use crate::order::{
    by_course, by_course_section, orders_keys, rearrangement, sort_by_course,
    sort_by_course_section, sorted_positions,
};
use crate::rank::{annotated, rating, score, strs};
use crate::structs::{BuildingData, Section, SectionView, views};

verus! {

/// Walking speed, in millimeters per second.
pub const WALK_SPEED: u32 = 1420;

/// Earliest start of a class, `HHMM`.
pub const EARLIEST: u32 = 900;

/// Latest end of a class, `HHMM`.
pub const LATEST: u32 = 1700;

/// Conflict under the walking speed and daily window that schedules are built with.
pub open spec fn clash(a: SectionView, b: SectionView, bm: Seq<BuildingData>) -> bool {
    sections_conflict(a, b, bm, WALK_SPEED, EARLIEST, LATEST)
}

/// Whether course `k` offers a section with the values `s`.
pub open spec fn offered(courses: Seq<Vec<Section>>, k: int, s: SectionView) -> bool {
    exists|i: int| 0 <= i < courses[k]@.len() && #[trigger] courses[k]@[i]@ == s
}

/// No two sections of `t` clash.
pub open spec fn clash_free(t: Seq<SectionView>, bm: Seq<BuildingData>) -> bool {
    forall|a: int, b: int| 0 <= a < t.len() && 0 <= b < t.len() && a != b ==> !clash(#[trigger] t[a], #[trigger] t[b], bm)
}

/// `t` takes one section of each course, in the order of the courses, and no two
/// of its sections clash.
pub open spec fn valid_schedule(
    t: Seq<SectionView>,
    courses: Seq<Vec<Section>>,
    bm: Seq<BuildingData>,
) -> bool {
    &&& t.len() == courses.len()
    &&& forall|k: int| 0 <= k < t.len() ==> offered(courses, k, #[trigger] t[k])
    &&& clash_free(t, bm)
}

fn copy_schedule(s: &Vec<Section>) -> (r: Vec<Section>)
    ensures
        views(r@) == views(s@),
{
    let mut r: Vec<Section> = Vec::new();
    let mut i: usize = 0;
    while i < s.len()
        invariant
            0 <= i <= s.len(),
            r@.len() == i,
            forall|j: int| 0 <= j < i ==> #[trigger] r@[j]@ == s@[j]@,
        decreases s.len() - i,
    {
        let c: Section = s[i].copy();
        r.push(c);
        i = i + 1;
    }
    proof {
        assert(views(r@) =~= views(s@));
    }
    r
}

/// Whether `cand` clashes with no section of `sched`.
fn fits(sched: &Vec<Section>, cand: &Section, bm: &Vec<BuildingData>) -> (r: bool)
    ensures
        r == forall|m: int| 0 <= m < sched@.len() ==> !clash(#[trigger] sched@[m]@, cand@, bm@),
{
    let mut m: usize = 0;
    while m < sched.len()
        invariant
            0 <= m <= sched.len(),
            forall|j: int| 0 <= j < m ==> !clash(#[trigger] sched@[j]@, cand@, bm@),
        decreases sched.len() - m,
    {
        if is_conflict(&sched[m], cand, bm, WALK_SPEED, EARLIEST, LATEST) {
            return false;
        }
        m = m + 1;
    }
    true
}

} // verus!

verus! {

/// Every schedule of the frontier is valid for the first `k` courses, and every
/// valid one is in it.
pub open spec fn frontier_exact(
    frontier: Seq<Vec<Section>>,
    courses: Seq<Vec<Section>>,
    k: int,
    bm: Seq<BuildingData>,
) -> bool {
    &&& forall|q: int|
        0 <= q < frontier.len() ==> valid_schedule(
            views(#[trigger] frontier[q]@),
            courses.subrange(0, k),
            bm,
        )
    &&& forall|t: Seq<SectionView>|
        valid_schedule(t, courses.subrange(0, k), bm) ==> exists|q: int|
            0 <= q < frontier.len() && views(#[trigger] frontier[q]@) == t
}

proof fn lemma_prefix_valid(
    t: Seq<SectionView>,
    courses: Seq<Vec<Section>>,
    k: int,
    bm: Seq<BuildingData>,
)
    requires
        0 <= k < courses.len(),
        valid_schedule(t, courses.subrange(0, k + 1), bm),
    ensures
        valid_schedule(t.subrange(0, k), courses.subrange(0, k), bm),
        offered(courses, k, t[k]),
        forall|m: int| 0 <= m < k ==> !clash(#[trigger] t[m], t[k], bm),
{
    let p = t.subrange(0, k);
    assert forall|j: int| 0 <= j < p.len() implies offered(
        courses.subrange(0, k),
        j,
        #[trigger] p[j],
    ) by {
        assert(offered(courses.subrange(0, k + 1), j, t[j]));
        let i = choose|i: int|
            0 <= i < courses.subrange(0, k + 1)[j]@.len() && #[trigger] courses.subrange(
                0,
                k + 1,
            )[j]@[i]@ == t[j];
        assert(courses.subrange(0, k)[j]@[i]@ == p[j]);
    }
    assert(offered(courses.subrange(0, k + 1), k, t[k]));
    let i = choose|i: int|
        0 <= i < courses.subrange(0, k + 1)[k]@.len() && #[trigger] courses.subrange(
            0,
            k + 1,
        )[k]@[i]@ == t[k];
    assert(courses[k]@[i]@ == t[k]);
    assert forall|m: int| 0 <= m < k implies !clash(#[trigger] t[m], t[k], bm) by {
        assert(!clash(t[m], t[k], bm));
    }
    assert forall|a: int, b: int|
        0 <= a < p.len() && 0 <= b < p.len() && a != b implies !clash(
        #[trigger] p[a],
        #[trigger] p[b],
        bm,
    ) by {
        assert(!clash(t[a], t[b], bm));
    }
}

/// No course has two sections with one section identifier.
pub open spec fn distinct_sections(courses: Seq<Vec<Section>>) -> bool {
    forall|k: int, i: int, j: int|
        0 <= k < courses.len() && 0 <= i < courses[k]@.len() && 0 <= j < courses[k]@.len() && i != j
            ==> (#[trigger] courses[k]@[i]).section@ != (#[trigger] courses[k]@[j]).section@
}

/// No two schedules hold the same sections.
pub open spec fn no_repeats(f: Seq<Vec<Section>>) -> bool {
    forall|q1: int, q2: int|
        0 <= q1 < f.len() && 0 <= q2 < f.len() && q1 != q2 ==> views(#[trigger] f[q1]@) != views(
            #[trigger] f[q2]@,
        )
}

pub open spec fn lex_lt(a: (int, int), b: (int, int)) -> bool {
    a.0 < b.0 || (a.0 == b.0 && a.1 < b.1)
}

/// Each schedule of `next` extends schedule `origin[q].1` of `frontier` with
/// section `origin[q].0` of `sections`, the origins strictly increasing.
pub open spec fn extends_from(
    next: Seq<Vec<Section>>,
    frontier: Seq<Vec<Section>>,
    sections: Seq<Section>,
    origin: Seq<(int, int)>,
) -> bool {
    &&& origin.len() == next.len()
    &&& forall|q: int|
        0 <= q < next.len() ==> 0 <= (#[trigger] origin[q]).0 < sections.len() && 0 <= origin[q].1
            < frontier.len() && views(next[q]@) == views(frontier[origin[q].1]@).push(
            sections[origin[q].0]@,
        )
    &&& forall|q1: int, q2: int|
        0 <= q1 < q2 < next.len() ==> lex_lt(#[trigger] origin[q1], #[trigger] origin[q2])
}

proof fn lemma_extension_no_repeats(
    next: Seq<Vec<Section>>,
    frontier: Seq<Vec<Section>>,
    sections: Seq<Section>,
    origin: Seq<(int, int)>,
)
    requires
        extends_from(next, frontier, sections, origin),
        no_repeats(frontier),
        forall|i: int, j: int|
            0 <= i < sections.len() && 0 <= j < sections.len() && i != j ==> (#[trigger] sections[i]).section@
                != (#[trigger] sections[j]).section@,
    ensures
        no_repeats(next),
{
    assert forall|q1: int, q2: int|
        0 <= q1 < next.len() && 0 <= q2 < next.len() && q1 != q2 implies views(#[trigger] next[q1]@) != views(
        #[trigger] next[q2]@,
    ) by {
        let o1 = origin[q1];
        let o2 = origin[q2];
        if views(next[q1]@) == views(next[q2]@) {
            let a = views(frontier[o1.1]@);
            let b = views(frontier[o2.1]@);
            assert(a.push(sections[o1.0]@) == b.push(sections[o2.0]@));
            assert(a.push(sections[o1.0]@).drop_last() =~= a);
            assert(b.push(sections[o2.0]@).drop_last() =~= b);
            assert(a == b);
            assert(a.push(sections[o1.0]@).last() == sections[o1.0]@);
            assert(b.push(sections[o2.0]@).last() == sections[o2.0]@);
            assert(sections[o1.0]@ == sections[o2.0]@);
            if q1 < q2 {
                assert(lex_lt(origin[q1], origin[q2]));
            } else {
                assert(lex_lt(origin[q2], origin[q1]));
            }
        }
    }
}

/// Every valid schedule for the courses in the order given.
fn synthesize(courses: &Vec<Vec<Section>>, buildings: &Vec<BuildingData>) -> (r: Vec<Vec<Section>>)
    ensures
        courses@.len() == 0 ==> r@.len() == 0,
        courses@.len() > 0 ==> frontier_exact(r@, courses@, courses@.len() as int, buildings@),
        distinct_sections(courses@) ==> no_repeats(r@),
{
    let mut frontier: Vec<Vec<Section>> = Vec::new();
    if courses.len() == 0 {
        return frontier;
    }
    let mut i: usize = 0;
    while i < courses[0].len()
        invariant
            0 <= i <= courses@[0]@.len(),
            courses@.len() > 0,
            frontier@.len() == i,
            forall|q: int| 0 <= q < i ==> views(#[trigger] frontier@[q]@) == seq![courses@[0]@[q]@],
        decreases courses@[0]@.len() - i,
    {
        let mut single: Vec<Section> = Vec::new();
        single.push(courses[0][i].copy());
        proof {
            assert(views(single@) =~= seq![courses@[0]@[i as int]@]);
        }
        frontier.push(single);
        i = i + 1;
    }
    proof {
        let c1 = courses@.subrange(0, 1);
        assert forall|q: int| 0 <= q < frontier@.len() implies valid_schedule(
            views(#[trigger] frontier@[q]@),
            c1,
            buildings@,
        ) by {
            let t = views(frontier@[q]@);
            assert(t == seq![courses@[0]@[q]@]);
            assert(c1[0]@[q]@ == t[0]);
        }
        assert forall|t: Seq<SectionView>| valid_schedule(t, c1, buildings@) implies exists|q: int|
            0 <= q < frontier@.len() && views(#[trigger] frontier@[q]@) == t by {
            assert(offered(c1, 0, t[0]));
            let q = choose|q: int| 0 <= q < c1[0]@.len() && #[trigger] c1[0]@[q]@ == t[0];
            assert(views(frontier@[q]@) =~= t);
        }
        if distinct_sections(courses@) {
            assert forall|q1: int, q2: int|
                0 <= q1 < frontier@.len() && 0 <= q2 < frontier@.len() && q1 != q2 implies views(#[trigger] frontier@[q1]@) != views(
                #[trigger] frontier@[q2]@,
            ) by {
                assert(views(frontier@[q1]@)[0] == courses@[0]@[q1]@);
                assert(views(frontier@[q2]@)[0] == courses@[0]@[q2]@);
            }
        }
    }
    let mut k: usize = 1;
    while k < courses.len()
        invariant
            1 <= k <= courses@.len(),
            frontier_exact(frontier@, courses@, k as int, buildings@),
            distinct_sections(courses@) ==> no_repeats(frontier@),
        decreases courses@.len() - k,
    {
        let ghost old_front = frontier@;
        let ghost ck = courses@.subrange(0, k as int);
        let ghost cn = courses@.subrange(0, k + 1);
        let mut next: Vec<Vec<Section>> = Vec::new();
        let ghost mut origin: Seq<(int, int)> = seq![];
        let mut i: usize = 0;
        while i < courses[k].len()
            invariant
                extends_from(next@, frontier@, courses@[k as int]@, origin),
                forall|q: int| 0 <= q < origin.len() ==> (#[trigger] origin[q]).0 < i,
                distinct_sections(courses@) ==> no_repeats(frontier@),
                1 <= k < courses@.len(),
                0 <= i <= courses@[k as int]@.len(),
                frontier@ == old_front,
                ck == courses@.subrange(0, k as int),
                cn == courses@.subrange(0, k + 1),
                frontier_exact(frontier@, courses@, k as int, buildings@),
                forall|q: int| 0 <= q < next@.len() ==> valid_schedule(views(#[trigger] next@[q]@), cn, buildings@),
                forall|t: Seq<SectionView>|
                    valid_schedule(t, cn, buildings@) && (exists|i2: int| 0 <= i2 < i && #[trigger] courses@[k as int]@[i2]@ == t[k as int]) ==> exists|q: int|
                        0 <= q < next@.len() && views(#[trigger] next@[q]@) == t,
            decreases courses@[k as int]@.len() - i,
        {
            let mut p: usize = 0;
            while p < frontier.len()
                invariant
                    extends_from(next@, frontier@, courses@[k as int]@, origin),
                    forall|q: int| 0 <= q < origin.len() ==> lex_lt(#[trigger] origin[q], (i as int, p as int)),
                    distinct_sections(courses@) ==> no_repeats(frontier@),
                    1 <= k < courses@.len(),
                    0 <= i < courses@[k as int]@.len(),
                    0 <= p <= frontier@.len(),
                    frontier@ == old_front,
                    ck == courses@.subrange(0, k as int),
                    cn == courses@.subrange(0, k + 1),
                    frontier_exact(frontier@, courses@, k as int, buildings@),
                    forall|q: int| 0 <= q < next@.len() ==> valid_schedule(views(#[trigger] next@[q]@), cn, buildings@),
                    forall|t: Seq<SectionView>|
                        valid_schedule(t, cn, buildings@) && ((exists|i2: int| 0 <= i2 < i && #[trigger] courses@[k as int]@[i2]@ == t[k as int])
                            || (courses@[k as int]@[i as int]@ == t[k as int] && exists|pq: int| 0 <= pq < p && #[trigger] views(frontier@[pq]@) == t.subrange(0, k as int)))
                        ==> exists|q: int| 0 <= q < next@.len() && views(#[trigger] next@[q]@) == t,
                decreases frontier@.len() - p,
            {
                let cand: &Section = &courses[k][i];
                if fits(&frontier[p], cand, buildings) {
                    let mut ns: Vec<Section> = copy_schedule(&frontier[p]);
                    ns.push(cand.copy());
                    proof {
                        let base = views(frontier@[p as int]@);
                        assert(views(ns@) =~= base.push(cand@));
                        let t = views(ns@);
                        assert(valid_schedule(base, ck, buildings@));
                        assert forall|j: int| 0 <= j < t.len() implies offered(cn, j, #[trigger] t[j]) by {
                            if j < k {
                                assert(offered(ck, j, base[j]));
                                let i3 = choose|i3: int| 0 <= i3 < ck[j]@.len() && #[trigger] ck[j]@[i3]@ == base[j];
                                assert(cn[j]@[i3]@ == t[j]);
                            } else {
                                assert(cn[j]@[i as int]@ == t[j]);
                            }
                        }
                        assert forall|a: int, b: int| 0 <= a < t.len() && 0 <= b < t.len() && a != b implies !clash(#[trigger] t[a], #[trigger] t[b], buildings@) by {
                            if a < k && b < k {
                                assert(!clash(base[a], base[b], buildings@));
                            } else if a == k {
                                assert(!clash(frontier@[p as int]@[b]@, cand@, buildings@));
                                lemma_conflict_symmetric(t[b], t[a], buildings@, WALK_SPEED, EARLIEST, LATEST);
                            } else {
                                assert(!clash(frontier@[p as int]@[a]@, cand@, buildings@));
                            }
                        }
                        assert(valid_schedule(t, cn, buildings@));
                    }
                    let ghost prev = next@;
                    let ghost prev_origin = origin;
                    next.push(ns);
                    proof {
                        origin = origin.push((i as int, p as int));
                        assert(views(next@[next@.len() - 1]@) == views(frontier@[p as int]@).push(courses@[k as int]@[i as int]@));
                        assert forall|q: int| 0 <= q < next@.len() implies 0 <= (#[trigger] origin[q]).0 < courses@[k as int]@.len() && 0 <= origin[q].1
                            < frontier@.len() && views(next@[q]@) == views(frontier@[origin[q].1]@).push(courses@[k as int]@[origin[q].0]@) by {
                            if q < prev.len() {
                                assert(next@[q] == prev[q]);
                                assert(origin[q] == prev_origin[q]);
                            }
                        }
                        assert forall|q1: int, q2: int| 0 <= q1 < q2 < next@.len() implies lex_lt(#[trigger] origin[q1], #[trigger] origin[q2]) by {
                            assert(origin[q1] == prev_origin[q1]);
                            if q2 < prev.len() {
                                assert(origin[q2] == prev_origin[q2]);
                            }
                        }
                        let nq = next@.len() - 1;
                        assert(views(next@[nq]@) == views(ns@));
                        assert forall|t: Seq<SectionView>|
                            valid_schedule(t, cn, buildings@) && ((exists|i2: int| 0 <= i2 < i && #[trigger] courses@[k as int]@[i2]@ == t[k as int])
                                || (courses@[k as int]@[i as int]@ == t[k as int] && exists|pq: int| 0 <= pq < p + 1 && #[trigger] views(frontier@[pq]@) == t.subrange(0, k as int)))
                            implies exists|q: int| 0 <= q < next@.len() && views(#[trigger] next@[q]@) == t by {
                            if courses@[k as int]@[i as int]@ == t[k as int] && views(frontier@[p as int]@) == t.subrange(0, k as int) {
                                assert(t.len() == k + 1);
                                assert(t =~= t.subrange(0, k as int).push(t[k as int]));
                                assert(views(next@[nq]@) =~= t);
                            } else {
                                if exists|pq: int| 0 <= pq < p + 1 && #[trigger] views(frontier@[pq]@) == t.subrange(0, k as int) {
                                    let pq = choose|pq: int| 0 <= pq < p + 1 && #[trigger] views(frontier@[pq]@) == t.subrange(0, k as int);
                                    if pq == p {
                                        assert(exists|i2: int| 0 <= i2 < i && #[trigger] courses@[k as int]@[i2]@ == t[k as int]);
                                    }
                                }
                                let q = choose|q: int| 0 <= q < prev.len() && views(#[trigger] prev[q]@) == t;
                                assert(next@[q] == prev[q]);
                            }
                        }
                    }
                } else {
                    proof {
                        assert forall|t: Seq<SectionView>|
                            valid_schedule(t, cn, buildings@) && ((exists|i2: int| 0 <= i2 < i && #[trigger] courses@[k as int]@[i2]@ == t[k as int])
                                || (courses@[k as int]@[i as int]@ == t[k as int] && exists|pq: int| 0 <= pq < p + 1 && #[trigger] views(frontier@[pq]@) == t.subrange(0, k as int)))
                            implies exists|q: int| 0 <= q < next@.len() && views(#[trigger] next@[q]@) == t by {
                            if courses@[k as int]@[i as int]@ == t[k as int] && views(frontier@[p as int]@) == t.subrange(0, k as int) {
                                lemma_prefix_valid(t, courses@, k as int, buildings@);
                                let m = choose|m: int| 0 <= m < frontier@[p as int]@.len() && clash(#[trigger] frontier@[p as int]@[m]@, cand@, buildings@);
                                assert(views(frontier@[p as int]@)[m] == t[m]);
                                assert(false);
                            } else {
                                if exists|pq: int| 0 <= pq < p + 1 && #[trigger] views(frontier@[pq]@) == t.subrange(0, k as int) {
                                    let pq = choose|pq: int| 0 <= pq < p + 1 && #[trigger] views(frontier@[pq]@) == t.subrange(0, k as int);
                                    if pq == p {
                                        assert(exists|i2: int| 0 <= i2 < i && #[trigger] courses@[k as int]@[i2]@ == t[k as int]);
                                    }
                                }
                            }
                        }
                    }
                }
                p = p + 1;
            }
            proof {
                assert forall|t: Seq<SectionView>|
                    valid_schedule(t, cn, buildings@) && (exists|i2: int| 0 <= i2 < i + 1 && #[trigger] courses@[k as int]@[i2]@ == t[k as int])
                    implies exists|q: int| 0 <= q < next@.len() && views(#[trigger] next@[q]@) == t by {
                    if courses@[k as int]@[i as int]@ == t[k as int] {
                        lemma_prefix_valid(t, courses@, k as int, buildings@);
                        let pq = choose|pq: int| 0 <= pq < frontier@.len() && views(#[trigger] frontier@[pq]@) == t.subrange(0, k as int);
                    } else {
                        let i2 = choose|i2: int| 0 <= i2 < i + 1 && #[trigger] courses@[k as int]@[i2]@ == t[k as int];
                        assert(i2 < i);
                    }
                }
            }
            i = i + 1;
        }
        proof {
            assert forall|t: Seq<SectionView>| valid_schedule(t, cn, buildings@) implies exists|q: int|
                0 <= q < next@.len() && views(#[trigger] next@[q]@) == t by {
                assert(offered(cn, k as int, t[k as int]));
                let i2 = choose|i2: int| 0 <= i2 < cn[k as int]@.len() && #[trigger] cn[k as int]@[i2]@ == t[k as int];
                assert(courses@[k as int]@[i2]@ == t[k as int]);
            }
        }
        proof {
            if distinct_sections(courses@) {
                lemma_extension_no_repeats(next@, frontier@, courses@[k as int]@, origin);
            }
        }
        frontier = next;
        k = k + 1;
    }
    proof {
        assert(courses@.subrange(0, courses@.len() as int) =~= courses@);
    }
    frontier
}

} // verus!

verus! {

/// Whether a section has the course and section identifiers of `target`.
pub open spec fn same_identity(s: SectionView, target: SectionView) -> bool {
    s.course == target.course && s.section == target.section
}

/// The sections of `sched` other than `target`, by identity, in order.
pub open spec fn without(sched: Seq<SectionView>, target: SectionView) -> Seq<SectionView>
    decreases sched.len(),
{
    if sched.len() == 0 {
        sched
    } else if same_identity(sched.last(), target) {
        without(sched.drop_last(), target)
    } else {
        without(sched.drop_last(), target).push(sched.last())
    }
}

/// The sections of all the courses, course after course.
pub open spec fn all_sections(courses: Seq<(String, Vec<Section>)>) -> Seq<SectionView>
    decreases courses.len(),
{
    if courses.len() == 0 {
        seq![]
    } else {
        all_sections(courses.drop_last()) + views(courses.last().1@)
    }
}

/// Whether `s` conflicts with no section of `rest`.
pub open spec fn compatible(
    rest: Seq<SectionView>,
    s: SectionView,
    bm: Seq<BuildingData>,
    speed: u32,
    earliest: u32,
    latest: u32,
) -> bool {
    forall|m: int| 0 <= m < rest.len() ==> !sections_conflict(#[trigger] rest[m], s, bm, speed, earliest, latest)
}

/// The candidates compatible with `rest`, in order.
pub open spec fn compatible_ones(
    cands: Seq<SectionView>,
    rest: Seq<SectionView>,
    bm: Seq<BuildingData>,
    speed: u32,
    earliest: u32,
    latest: u32,
) -> Seq<SectionView>
    decreases cands.len(),
{
    if cands.len() == 0 {
        cands
    } else if compatible(rest, cands.last(), bm, speed, earliest, latest) {
        compatible_ones(cands.drop_last(), rest, bm, speed, earliest, latest).push(cands.last())
    } else {
        compatible_ones(cands.drop_last(), rest, bm, speed, earliest, latest)
    }
}

/// Whether some string of `v` reads `s`.
pub open spec fn lists(v: Seq<String>, s: Seq<char>) -> bool {
    exists|i: int| 0 <= i < v.len() && #[trigger] v[i]@ == s
}

fn contains_string(v: &Vec<String>, s: &String) -> (r: bool)
    ensures
        r == lists(v@, s@),
{
    let mut i: usize = 0;
    while i < v.len()
        invariant
            0 <= i <= v.len(),
            forall|j: int| 0 <= j < i ==> (#[trigger] v@[j])@ != s@,
        decreases v.len() - i,
    {
        if v[i] == *s {
            return true;
        }
        i = i + 1;
    }
    false
}

fn compatible_with(
    rest: &Vec<Section>,
    s: &Section,
    bm: &Vec<BuildingData>,
    speed: u32,
    earliest: u32,
    latest: u32,
) -> (r: bool)
    ensures
        r == compatible(views(rest@), s@, bm@, speed, earliest, latest),
{
    let mut m: usize = 0;
    while m < rest.len()
        invariant
            0 <= m <= rest.len(),
            forall|j: int| 0 <= j < m ==> !sections_conflict(#[trigger] views(rest@)[j], s@, bm@, speed, earliest, latest),
        decreases rest.len() - m,
    {
        if is_conflict(&rest[m], s, bm, speed, earliest, latest) {
            assert(views(rest@)[m as int] == rest@[m as int]@);
            return false;
        }
        m = m + 1;
    }
    true
}

impl Section {
    ///Finds an alternate sections that can replace this section in the given schedule
    pub fn find_alt(
        &self,
        schedule: Vec<Section>,
        buildings: &Vec<BuildingData>,
        walk_speed: u32,
        earliest: u32,
        latest: u32,
        alternates: &Vec<(String, Vec<Section>)>,
        required: &Vec<String>,
    ) -> (r: Vec<Section>)
        ensures
            lists(required@, self.course@) ==> r@.len() == 0,
            !lists(required@, self.course@) ==> rearrangement(
                compatible_ones(
                    all_sections(alternates@),
                    without(views(schedule@), self@),
                    buildings@,
                    walk_speed,
                    earliest,
                    latest,
                ),
                views(r@),
            ),
            by_course_section(views(r@)),
    {
        if contains_string(required, &self.course) {
            let none: Vec<Section> = Vec::new();
            proof {
                assert(views(none@).len() == 0);
            }
            return none;
        }
        let mut rest: Vec<Section> = Vec::new();
        let mut i: usize = 0;
        while i < schedule.len()
            invariant
                0 <= i <= schedule.len(),
                views(rest@) == without(views(schedule@.subrange(0, i as int)), self@),
            decreases schedule.len() - i,
        {
            proof {
                assert(views(schedule@.subrange(0, i + 1)).drop_last() =~= views(schedule@.subrange(0, i as int)));
                assert(views(schedule@.subrange(0, i + 1)).last() == schedule@[i as int]@);
            }
            if !(schedule[i].course == self.course && schedule[i].section == self.section) {
                let c: Section = schedule[i].copy();
                let ghost before = rest@;
                rest.push(c);
                proof {
                    assert(views(rest@) =~= views(before).push(schedule@[i as int]@));
                }
            }
            i = i + 1;
        }
        proof {
            assert(schedule@.subrange(0, schedule@.len() as int) =~= schedule@);
        }
        let ghost rv = views(rest@);
        let mut alts: Vec<Section> = Vec::new();
        let mut c: usize = 0;
        while c < alternates.len()
            invariant
                0 <= c <= alternates.len(),
                rv == views(rest@),
                views(alts@) == compatible_ones(
                    all_sections(alternates@.subrange(0, c as int)),
                    rv,
                    buildings@,
                    walk_speed,
                    earliest,
                    latest,
                ),
            decreases alternates.len() - c,
        {
            let ghost done = all_sections(alternates@.subrange(0, c as int));
            let mut j: usize = 0;
            while j < alternates[c].1.len()
                invariant
                    0 <= c < alternates.len(),
                    0 <= j <= alternates@[c as int].1@.len(),
                    rv == views(rest@),
                    done == all_sections(alternates@.subrange(0, c as int)),
                    views(alts@) == compatible_ones(
                        done + views(alternates@[c as int].1@.subrange(0, j as int)),
                        rv,
                        buildings@,
                        walk_speed,
                        earliest,
                        latest,
                    ),
                decreases alternates@[c as int].1@.len() - j,
            {
                let cand: &Section = &alternates[c].1[j];
                proof {
                    let cur = done + views(alternates@[c as int].1@.subrange(0, j + 1));
                    assert(cur.drop_last() =~= done + views(alternates@[c as int].1@.subrange(0, j as int)));
                    assert(cur.last() == cand@);
                }
                if compatible_with(&rest, cand, buildings, walk_speed, earliest, latest) {
                    let ghost before = alts@;
                    alts.push(cand.copy());
                    proof {
                        assert(views(alts@) =~= views(before).push(cand@));
                    }
                }
                j = j + 1;
            }
            proof {
                let nxt = alternates@.subrange(0, c + 1);
                assert(nxt.drop_last() =~= alternates@.subrange(0, c as int));
                assert(alternates@[c as int].1@.subrange(0, alternates@[c as int].1@.len() as int) =~= alternates@[c as int].1@);
                assert(all_sections(nxt) == done + views(alternates@[c as int].1@));
            }
            c = c + 1;
        }
        proof {
            assert(alternates@.subrange(0, alternates@.len() as int) =~= alternates@);
        }
        sort_by_course_section(&alts)
    }
}

} // verus!

verus! {

/// The alternates of `target` within `sched`: none for a required course, else
/// every section of the alternate courses compatible with the rest of `sched`.
pub open spec fn alternates_for(
    target: SectionView,
    sched: Seq<SectionView>,
    alternates: Seq<(String, Vec<Section>)>,
    bm: Seq<BuildingData>,
    required: Seq<String>,
) -> Seq<SectionView> {
    if lists(required, target.course) {
        seq![]
    } else {
        compatible_ones(
            all_sections(alternates),
            without(sched, target),
            bm,
            WALK_SPEED,
            EARLIEST,
            LATEST,
        )
    }
}

/// `a` pairs each section of `sched` with its alternates, ordered by course and
/// section.
pub open spec fn annotates(
    a: Seq<(SectionView, Seq<SectionView>)>,
    sched: Seq<SectionView>,
    alternates: Seq<(String, Vec<Section>)>,
    bm: Seq<BuildingData>,
    required: Seq<String>,
) -> bool {
    &&& a.len() == sched.len()
    &&& forall|m: int|
        0 <= m < a.len() ==> (#[trigger] a[m]).0 == sched[m] && rearrangement(
            alternates_for(sched[m], sched, alternates, bm, required),
            a[m].1,
        ) && by_course_section(a[m].1)
}

/// `a` is schedule `s`, ordered by course, with the alternates of each section.
pub open spec fn ranked_from(
    a: Seq<(SectionView, Seq<SectionView>)>,
    s: Seq<SectionView>,
    alternates: Seq<(String, Vec<Section>)>,
    bm: Seq<BuildingData>,
    required: Seq<String>,
) -> bool {
    exists|t: Seq<SectionView>|
        #![trigger annotates(a, t, alternates, bm, required)]
        rearrangement(s, t) && by_course(t) && annotates(a, t, alternates, bm, required)
}

/// The identifiers of the courses of a catalog.
pub open spec fn catalog_ids(courses: Seq<(String, Vec<Section>)>) -> Seq<Seq<char>> {
    courses.map_values(|c: (String, Vec<Section>)| c.0@)
}

/// Whether `a` comes no later than `b`: lexicographic order on pairs.
pub open spec fn pair_le(a: (u128, usize), b: (u128, usize)) -> bool {
    a.0 < b.0 || (a.0 == b.0 && a.1 <= b.1)
}

pub open spec fn pair_order() -> spec_fn((u128, usize), (u128, usize)) -> bool {
    |a: (u128, usize), b: (u128, usize)| pair_le(a, b)
}

/// Relies on `slice::sort` for pairs of integers: the same pairs, in ascending
/// lexicographic order.
#[verifier::external_body]
fn sort_pairs(v: &mut Vec<(u128, usize)>)
    ensures
        final(v)@.to_multiset() == old(v)@.to_multiset(),
        sorted_by(final(v)@, pair_order()),
{
    v.sort();
}

fn catalog_names(courses: &Vec<(String, Vec<Section>)>) -> (r: Vec<String>)
    ensures
        crate::rank::strs(r@) == catalog_ids(courses@),
{
    let mut r: Vec<String> = Vec::new();
    let mut c: usize = 0;
    while c < courses.len()
        invariant
            0 <= c <= courses@.len(),
            r@.len() == c,
            forall|q: int| 0 <= q < c ==> (#[trigger] r@[q])@ == courses@[q].0@,
        decreases courses@.len() - c,
    {
        r.push(courses[c].0.clone());
        c = c + 1;
    }
    proof {
        assert(crate::rank::strs(r@) =~= catalog_ids(courses@));
    }
    r
}

fn annotate(
    schedule: &Vec<Section>,
    buildings: &Vec<BuildingData>,
    alternates: &Vec<(String, Vec<Section>)>,
    required: &Vec<String>,
) -> (r: Vec<(Section, Vec<Section>)>)
    ensures
        r@.len() == schedule@.len(),
        annotates(annotated(r@), views(schedule@), alternates@, buildings@, required@),
{
    let ghost sv = views(schedule@);
    let mut r: Vec<(Section, Vec<Section>)> = Vec::new();
    let mut m: usize = 0;
    while m < schedule.len()
        invariant
            0 <= m <= schedule.len(),
            sv == views(schedule@),
            r@.len() == m,
            forall|j: int|
                0 <= j < m ==> (#[trigger] annotated(r@)[j]).0 == sv[j] && rearrangement(
                    alternates_for(sv[j], sv, alternates@, buildings@, required@),
                    annotated(r@)[j].1,
                ) && by_course_section(annotated(r@)[j].1),
        decreases schedule.len() - m,
    {
        let alts: Vec<Section> = schedule[m].find_alt(
            copy_schedule(schedule),
            buildings,
            WALK_SPEED,
            EARLIEST,
            LATEST,
            alternates,
            required,
        );
        proof {
            assert(sv[m as int] == schedule@[m as int]@);
            if lists(required@, schedule@[m as int].course@) {
                assert(alternates_for(sv[m as int], sv, alternates@, buildings@, required@) =~= seq![]);
                assert(views(alts@) =~= seq![]);
                let e: Seq<usize> = seq![];
                assert(e.len() == 0);
            }
        }
        let ghost before = r@;
        r.push((schedule[m].copy(), alts));
        proof {
            assert forall|j: int|
                0 <= j < m + 1 implies (#[trigger] annotated(r@)[j]).0 == sv[j] && rearrangement(
                    alternates_for(sv[j], sv, alternates@, buildings@, required@),
                    annotated(r@)[j].1,
                ) && by_course_section(annotated(r@)[j].1) by {
                if j < m {
                    assert(r@[j] == before[j]);
                    assert(annotated(r@)[j] == annotated(before)[j]);
                }
            }
        }
        m = m + 1;
    }
    r
}

///Computes possible alternates for all the given potential schedules
pub fn schedules_with_alternatives(
    potential_schedules: Vec<Vec<Section>>,
    buildings: &Vec<BuildingData>,
    alternates: &Vec<(String, Vec<Section>)>,
    required: &Vec<String>,
) -> (r: Vec<Vec<(Section, Vec<Section>)>>)
    requires
        forall|j: int| 0 <= j < potential_schedules@.len() ==> (#[trigger] potential_schedules@[j])@.len() <= u32::MAX,
    ensures
        r@.len() == potential_schedules@.len(),
        exists|perm: Seq<int>|
            #![trigger perm.len()]
            perm.len() == r@.len() && (forall|k: int| 0 <= k < r@.len() ==> 0 <= #[trigger] perm[k] < potential_schedules@.len() && ranked_from(annotated(r@[k]@), views(potential_schedules@[perm[k]]@), alternates@, buildings@, required@))
                && (forall|k1: int, k2: int| 0 <= k1 < k2 < r@.len() ==> #[trigger] perm[k1] != #[trigger] perm[k2]),
        forall|k: int| 0 <= k < r@.len() - 1 ==> score(annotated(#[trigger] r@[k]@), catalog_ids(alternates@)) >= score(annotated(r@[k + 1]@), catalog_ids(alternates@)),
{
    let names: Vec<String> = catalog_names(alternates);
    let n: usize = potential_schedules.len();
    let mut built: Vec<Vec<(Section, Vec<Section>)>> = Vec::new();
    let mut keys: Vec<(u128, usize)> = Vec::new();
    let mut j: usize = 0;
    while j < n
        invariant
            0 <= j <= n,
            n == potential_schedules@.len(),
            crate::rank::strs(names@) == catalog_ids(alternates@),
            forall|j: int| 0 <= j < potential_schedules@.len() ==> (#[trigger] potential_schedules@[j])@.len() <= u32::MAX,
            built@.len() == j,
            keys@.len() == j,
            forall|q: int| 0 <= q < j ==> ranked_from(annotated(#[trigger] built@[q]@), views(potential_schedules@[q]@), alternates@, buildings@, required@),
            forall|q: int| 0 <= q < j ==> 0 <= #[trigger] score(annotated(built@[q]@), catalog_ids(alternates@)) <= u128::MAX,
            forall|q: int| 0 <= q < j ==> #[trigger] keys@[q] == ((u128::MAX - score(annotated(built@[q]@), catalog_ids(alternates@))) as u128, q as usize),
        decreases n - j,
    {
        let ordered: Vec<Section> = sort_by_course(&potential_schedules[j]);
        let a: Vec<(Section, Vec<Section>)> = annotate(&ordered, buildings, alternates, required);
        proof {
            assert(rearrangement(views(potential_schedules@[j as int]@), views(ordered@)) && by_course(views(ordered@)) && annotates(annotated(a@), views(ordered@), alternates@, buildings@, required@));
        }
        let score_j: u128 = rating(&a, &names);
        built.push(a);
        keys.push((u128::MAX - score_j, j));
        j = j + 1;
    }
    let ghost unsorted = keys@;
    proof {
        assert forall|q: int| 0 <= q < n implies #[trigger] unsorted[q] == ((u128::MAX - score(annotated(built@[q]@), catalog_ids(alternates@))) as u128, q as usize) by {
            assert(keys@[q] == unsorted[q]);
        }
    }
    sort_pairs(&mut keys);
    proof {
        keys@.to_multiset_ensures();
        unsorted.to_multiset_ensures();
    }
    let mut r: Vec<Vec<(Section, Vec<Section>)>> = Vec::new();
    let mut k: usize = 0;
    while k < n
        invariant
            0 <= k <= n,
            n == potential_schedules@.len(),
            built@.len() == n,
            keys@.len() == n,
            keys@.to_multiset() == unsorted.to_multiset(),
            sorted_by(keys@, pair_order()),
            unsorted.len() == n,
            forall|q: int| 0 <= q < n ==> ranked_from(annotated(#[trigger] built@[q]@), views(potential_schedules@[q]@), alternates@, buildings@, required@),
            forall|q: int| 0 <= q < n ==> 0 <= #[trigger] score(annotated(built@[q]@), catalog_ids(alternates@)) <= u128::MAX,
            forall|q: int| 0 <= q < n ==> #[trigger] unsorted[q] == ((u128::MAX - score(annotated(built@[q]@), catalog_ids(alternates@))) as u128, q as usize),
            r@.len() == k,
            forall|q: int| 0 <= q < k ==> annotated(#[trigger] r@[q]@) == annotated(built@[keys@[q].1 as int]@) && keys@[q].1 < n,
        decreases n - k,
    {
        proof {
            keys@.to_multiset_ensures();
            unsorted.to_multiset_ensures();
            assert(keys@.contains(keys@[k as int]));
            assert(keys@.to_multiset().count(keys@[k as int]) > 0);
            assert(unsorted.to_multiset().count(keys@[k as int]) > 0);
            assert(unsorted.contains(keys@[k as int]));
            let a = choose|a: int| 0 <= a < unsorted.len() && unsorted[a] == keys@[k as int];
            assert(unsorted[a].1 == a);
        }
        let idx: usize = keys[k].1;
        let mut copy: Vec<(Section, Vec<Section>)> = Vec::new();
        let mut m: usize = 0;
        while m < built[idx].len()
            invariant
                0 <= m <= built@[idx as int]@.len(),
                idx < built@.len(),
                copy@.len() == m,
                forall|q: int| 0 <= q < m ==> #[trigger] annotated(copy@)[q] == annotated(built@[idx as int]@)[q],
            decreases built@[idx as int]@.len() - m,
        {
            let ghost before = copy@;
            let pair: (Section, Vec<Section>) = (built[idx][m].0.copy(), copy_schedule(&built[idx][m].1));
            copy.push(pair);
            proof {
                assert forall|q: int| 0 <= q < m + 1 implies #[trigger] annotated(copy@)[q] == annotated(built@[idx as int]@)[q] by {
                    if q < m {
                        assert(copy@[q] == before[q]);
                        assert(annotated(before)[q] == annotated(built@[idx as int]@)[q]);
                    }
                }
            }
            m = m + 1;
        }
        proof {
            assert(annotated(copy@) =~= annotated(built@[idx as int]@));
        }
        let ghost before_r = r@;
        r.push(copy);
        proof {
            assert forall|q: int| 0 <= q < k + 1 implies annotated(#[trigger] r@[q]@) == annotated(built@[keys@[q].1 as int]@) && keys@[q].1 < n by {
                if q < k {
                    assert(r@[q] == before_r[q]);
                    assert(annotated(before_r[q]@) == annotated(built@[keys@[q].1 as int]@) && keys@[q].1 < n);
                }
            }
        }
        k = k + 1;
    }
    proof {
        assert(r@.len() == n);
        assert forall|q: int| 0 <= q < n implies annotated(#[trigger] r@[q]@) == annotated(built@[keys@[q].1 as int]@) && keys@[q].1 < n by {
        }
        let perm: Seq<int> = keys@.map_values(|p: (u128, usize)| p.1 as int);
        assert forall|k: int| 0 <= k < r@.len() implies 0 <= #[trigger] perm[k] < potential_schedules@.len() && ranked_from(annotated(r@[k]@), views(potential_schedules@[perm[k]]@), alternates@, buildings@, required@) by {
            assert(0 <= k < n);
            let rk = annotated(r@[k]@);
            assert(rk == annotated(built@[keys@[k].1 as int]@) && keys@[k].1 < n);
            let j = keys@[k].1 as int;
            assert(perm[k] == j);
            assert(ranked_from(annotated(built@[j]@), views(potential_schedules@[j]@), alternates@, buildings@, required@));
        }
        assert(unsorted.no_duplicates()) by {
            assert forall|a: int, b: int| 0 <= a < unsorted.len() && 0 <= b < unsorted.len() && a != b implies unsorted[a] != unsorted[b] by {
                assert(unsorted[a].1 == a);
                assert(unsorted[b].1 == b);
            }
        }
        unsorted.lemma_multiset_has_no_duplicates();
        keys@.lemma_multiset_has_no_duplicates_conv();
        assert forall|k1: int, k2: int| 0 <= k1 < k2 < r@.len() implies #[trigger] perm[k1] != #[trigger] perm[k2] by {
            keys@.to_multiset_ensures();
            unsorted.to_multiset_ensures();
            assert(keys@.to_multiset().count(keys@[k1]) > 0);
            assert(keys@.to_multiset().count(keys@[k2]) > 0);
            assert(unsorted.contains(keys@[k1]));
            assert(unsorted.contains(keys@[k2]));
            let a = choose|a: int| 0 <= a < unsorted.len() && unsorted[a] == keys@[k1];
            let b = choose|b: int| 0 <= b < unsorted.len() && unsorted[b] == keys@[k2];
            assert(unsorted[a].1 == a);
            assert(unsorted[b].1 == b);
            assert(keys@[k1] != keys@[k2]);
        }
        assert(perm.len() == r@.len());
        assert forall|k: int| 0 <= k < r@.len() - 1 implies score(annotated(#[trigger] r@[k]@), catalog_ids(alternates@)) >= score(annotated(r@[k + 1]@), catalog_ids(alternates@)) by {
            assert(pair_order()(keys@[k], keys@[k + 1]));
            assert(pair_le(keys@[k], keys@[k + 1]));
            keys@.to_multiset_ensures();
            unsorted.to_multiset_ensures();
            assert(keys@.contains(keys@[k]));
            assert(keys@.contains(keys@[k + 1]));
            assert(keys@.to_multiset().count(keys@[k]) > 0);
            assert(keys@.to_multiset().count(keys@[k + 1]) > 0);
            assert(unsorted.contains(keys@[k]));
            assert(unsorted.contains(keys@[k + 1]));
            let a = choose|a: int| 0 <= a < unsorted.len() && unsorted[a] == keys@[k];
            let b = choose|b: int| 0 <= b < unsorted.len() && unsorted[b] == keys@[k + 1];
            assert(unsorted[a] == ((u128::MAX - score(annotated(built@[a]@), catalog_ids(alternates@))) as u128, a as usize));
            assert(unsorted[b] == ((u128::MAX - score(annotated(built@[b]@), catalog_ids(alternates@))) as u128, b as usize));
            assert(0 <= score(annotated(built@[a]@), catalog_ids(alternates@)) <= u128::MAX);
            assert(0 <= score(annotated(built@[b]@), catalog_ids(alternates@)) <= u128::MAX);
            assert(annotated(r@[k]@) == annotated(built@[a]@));
            assert(annotated(r@[k + 1]@) == annotated(built@[b]@));
        }
    }
    r
}

} // verus!

verus! {

/// The identifier of each course.
pub open spec fn course_keys(courses: Seq<(String, Vec<Section>)>) -> Seq<Seq<char>> {
    courses.map_values(|c: (String, Vec<Section>)| c.0@)
}

/// The sections of each course.
pub open spec fn catalog_sections(courses: Seq<(String, Vec<Section>)>) -> Seq<Vec<Section>> {
    courses.map_values(|c: (String, Vec<Section>)| c.1)
}

/// `sorted` holds the courses of `courses` in the order `perm` gives, which is
/// the order of their identifiers, section by section the same.
pub open spec fn courses_in_order(
    courses: Seq<(String, Vec<Section>)>,
    perm: Seq<usize>,
    sorted: Seq<Vec<Section>>,
) -> bool {
    &&& sorted.len() == courses.len()
    &&& orders_keys(course_keys(courses), perm)
    &&& forall|k: int| 0 <= k < sorted.len() ==> views(#[trigger] sorted[k]@) == views(courses[perm[k] as int].1@)
}

/// `r` is what building schedules from `courses` gives: with the courses put in
/// order of identifier as `sorted`, `raw` is every valid schedule, none twice
/// where no course repeats a section identifier, and each schedule of `r` holds
/// the sections of the schedule of `raw` at its place.
pub open spec fn built_from(
    courses: Seq<(String, Vec<Section>)>,
    bm: Seq<BuildingData>,
    r: Seq<Vec<Section>>,
    perm: Seq<usize>,
    sorted: Seq<Vec<Section>>,
    raw: Seq<Vec<Section>>,
) -> bool {
    &&& courses_in_order(courses, perm, sorted)
    &&& frontier_exact(raw, sorted, sorted.len() as int, bm)
    &&& distinct_sections(catalog_sections(courses)) ==> no_repeats(raw)
    &&& raw.len() == r.len()
    &&& forall|q: int| 0 <= q < r.len() ==> rearrangement(views(#[trigger] raw[q]@), views(r[q]@))
}

///Generates all potential schedules from the desired courses
pub fn get_potential_schedules(desired_courses: Vec<(String, Vec<Section>)>, buildings: &Vec<BuildingData>) -> (r: Vec<Vec<Section>>)
    ensures
        desired_courses@.len() == 0 ==> r@.len() == 0,
        desired_courses@.len() > 0 ==> exists|perm: Seq<usize>, sorted: Seq<Vec<Section>>, raw: Seq<Vec<Section>>|
            #[trigger] built_from(desired_courses@, buildings@, r@, perm, sorted, raw),
        forall|q: int| 0 <= q < r@.len() ==> by_course(views(#[trigger] r@[q]@)),
{
    let courses = &desired_courses;
    let mut keys: Vec<String> = Vec::new();
    let mut k: usize = 0;
    while k < courses.len()
        invariant
            0 <= k <= courses@.len(),
            keys@.len() == k,
            forall|q: int| 0 <= q < k ==> (#[trigger] keys@[q])@ == courses@[q].0@,
        decreases courses@.len() - k,
    {
        keys.push(courses[k].0.clone());
        k = k + 1;
    }
    proof {
        assert(strs(keys@) =~= course_keys(courses@));
    }
    let pos: Vec<usize> = sorted_positions(&keys);
    let mut sorted: Vec<Vec<Section>> = Vec::new();
    let mut k: usize = 0;
    while k < pos.len()
        invariant
            0 <= k <= pos@.len(),
            orders_keys(course_keys(courses@), pos@),
            sorted@.len() == k,
            forall|q: int| 0 <= q < k ==> views(#[trigger] sorted@[q]@) == views(courses@[pos@[q] as int].1@),
        decreases pos@.len() - k,
    {
        assert(pos@[k as int] < courses@.len());
        sorted.push(copy_schedule(&courses[pos[k]].1));
        k = k + 1;
    }
    proof {
        let cs = catalog_sections(courses@);
        if distinct_sections(cs) {
            assert forall|k: int, i: int, j: int|
                0 <= k < sorted@.len() && 0 <= i < sorted@[k]@.len() && 0 <= j < sorted@[k]@.len() && i != j
                    implies (#[trigger] sorted@[k]@[i]).section@ != (#[trigger] sorted@[k]@[j]).section@ by {
                let pk = pos@[k] as int;
                assert(pos@[k] < course_keys(courses@).len());
                assert(cs[pk] == courses@[pk].1);
                assert(views(sorted@[k]@) == views(courses@[pk].1@));
                assert(views(sorted@[k]@)[i] == sorted@[k]@[i]@);
                assert(views(sorted@[k]@)[j] == sorted@[k]@[j]@);
                assert(views(courses@[pk].1@).len() == courses@[pk].1@.len());
                assert(views(courses@[pk].1@)[i] == courses@[pk].1@[i]@);
                assert(views(courses@[pk].1@)[j] == courses@[pk].1@[j]@);
                assert(cs[pk]@[i] == courses@[pk].1@[i]);
                assert(cs[pk]@[j] == courses@[pk].1@[j]);
            }
        }
    }
    let raw: Vec<Vec<Section>> = synthesize(&sorted, buildings);
    let mut r: Vec<Vec<Section>> = Vec::new();
    let mut q: usize = 0;
    while q < raw.len()
        invariant
            0 <= q <= raw@.len(),
            r@.len() == q,
            forall|j: int| 0 <= j < q ==> rearrangement(views(#[trigger] raw@[j]@), views(r@[j]@)) && by_course(views(r@[j]@)),
        decreases raw@.len() - q,
    {
        let ordered: Vec<Section> = sort_by_course(&raw[q]);
        let ghost before = r@;
        r.push(ordered);
        proof {
            assert forall|j: int| 0 <= j < q + 1 implies rearrangement(views(#[trigger] raw@[j]@), views(r@[j]@)) && by_course(views(r@[j]@)) by {
                if j < q {
                    assert(r@[j] == before[j]);
                }
            }
        }
        q = q + 1;
    }
    proof {
        assert(courses_in_order(courses@, pos@, sorted@));
        if courses@.len() > 0 {
            assert(built_from(courses@, buildings@, r@, pos@, sorted@, raw@));
        }
        assert forall|j: int| 0 <= j < r@.len() implies by_course(views(#[trigger] r@[j]@)) by {
            assert(rearrangement(views(raw@[j]@), views(r@[j]@)) && by_course(views(r@[j]@)));
        }
    }
    r
}

} // verus!
