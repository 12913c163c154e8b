use vstd::prelude::*;
use vstd::relations::{sorted_by, total_ordering};

use crate::structs::{Section, SectionView, views};

verus! {

/// Relies on `slice::sort` for `u64`: the same values, in ascending order.
#[verifier::external_body]
pub(crate) fn sort_u64(v: &mut Vec<u64>)
    ensures
        final(v)@.to_multiset() == old(v)@.to_multiset(),
        sorted_by(final(v)@, |a: u64, b: u64| a <= b),
{
    v.sort();
}

pub open spec fn u64_leq() -> spec_fn(u64, u64) -> bool {
    |a: u64, b: u64| a <= b
}

/// The median of `s` in hundredths: the middle value of `s` in ascending order,
/// or the mean of the two middle values; zero for no values.
pub open spec fn median_of(s: Seq<u64>) -> int {
    let t = s.sort_by(u64_leq());
    if t.len() == 0 {
        0
    } else if t.len() % 2 == 1 {
        100 * t[(t.len() / 2) as int]
    } else {
        50 * (t[t.len() / 2 - 1] + t[(t.len() / 2) as int])
    }
}

proof fn lemma_u64_leq_total()
    ensures
        total_ordering(u64_leq()),
{
    reveal(total_ordering);
    assert(vstd::relations::reflexive(u64_leq()));
    assert(vstd::relations::antisymmetric(u64_leq()));
    assert(vstd::relations::transitive(u64_leq()));
    assert(vstd::relations::strongly_connected(u64_leq()));
}

///compute median of a collection of counts, in hundredths
pub fn median(numbers: &Vec<u64>) -> (r: u128)
    ensures
        r == median_of(numbers@),
{
    let mut sorted: Vec<u64> = numbers.clone();
    proof {
        assert(sorted@ =~= numbers@);
    }
    sort_u64(&mut sorted);
    proof {
        lemma_u64_leq_total();
        numbers@.lemma_sort_by_ensures(u64_leq());
        assert(sorted_by(sorted@, u64_leq()));
        vstd::seq_lib::lemma_sorted_unique(sorted@, numbers@.sort_by(u64_leq()), u64_leq());
    }
    let len: usize = sorted.len();
    if len == 0 {
        0
    } else if len % 2 == 1 {
        100 * (sorted[len / 2] as u128)
    } else {
        50 * (sorted[len / 2 - 1] as u128 + sorted[len / 2] as u128)
    }
}

} // verus!

verus! {

/// A schedule with alternates, as values.
pub open spec fn annotated(s: Seq<(Section, Vec<Section>)>) -> Seq<(SectionView, Seq<SectionView>)> {
    s.map_values(|p: (Section, Vec<Section>)| (p.0@, views(p.1@)))
}

/// The characters of each string.
pub open spec fn strs(v: Seq<String>) -> Seq<Seq<char>> {
    v.map_values(|x: String| x@)
}

/// Sum of the instructor ratings of the chosen sections.
pub open spec fn prof_total(s: Seq<(SectionView, Seq<SectionView>)>) -> int
    decreases s.len(),
{
    if s.len() == 0 {
        0
    } else {
        prof_total(s.drop_last()) + s.last().0.rating
    }
}

/// Sum of the instructor ratings of some sections.
pub open spec fn rating_sum(a: Seq<SectionView>) -> int
    decreases a.len(),
{
    if a.len() == 0 {
        0
    } else {
        rating_sum(a.drop_last()) + a.last().rating
    }
}

/// Mean instructor rating of some alternates, rounded down; zero for none.
pub open spec fn alt_average(a: Seq<SectionView>) -> int {
    if a.len() == 0 {
        0
    } else {
        rating_sum(a) / (a.len() as int)
    }
}

pub open spec fn alt_average_total(s: Seq<(SectionView, Seq<SectionView>)>) -> int
    decreases s.len(),
{
    if s.len() == 0 {
        0
    } else {
        alt_average_total(s.drop_last()) + alt_average(s.last().1)
    }
}

/// Mean over the sections of the mean rating of their alternates, rounded down;
/// zero for an empty schedule.
pub open spec fn mean_alt_average(s: Seq<(SectionView, Seq<SectionView>)>) -> int {
    if s.len() == 0 {
        0
    } else {
        alt_average_total(s) / (s.len() as int)
    }
}

pub open spec fn course_ids(a: Seq<SectionView>) -> Seq<Seq<char>> {
    a.map_values(|x: SectionView| x.course)
}

/// The values of `s`, each once, in the order they first appear.
pub open spec fn distinct(s: Seq<Seq<char>>) -> Seq<Seq<char>>
    decreases s.len(),
{
    if s.len() == 0 {
        s
    } else if distinct(s.drop_last()).contains(s.last()) {
        distinct(s.drop_last())
    } else {
        distinct(s.drop_last()).push(s.last())
    }
}

/// How many sections of `a` belong to course `id`.
pub open spec fn count_course(a: Seq<SectionView>, id: Seq<char>) -> int
    decreases a.len(),
{
    if a.len() == 0 {
        0
    } else {
        count_course(a.drop_last(), id) + if a.last().course == id {
            1int
        } else {
            0int
        }
    }
}

/// For each alternate course, those among `a` and those listed in `all`, how many
/// sections of `a` it has.
pub open spec fn alt_counts(a: Seq<SectionView>, all: Seq<Seq<char>>) -> Seq<u64> {
    distinct(course_ids(a) + all).map_values(|id: Seq<char>| count_course(a, id) as u64)
}

/// Reward, in hundredths, for the alternates of one section: a point for each
/// distinct alternate course, plus the median number of its sections per
/// alternate course.
pub open spec fn diversity(a: Seq<SectionView>, all: Seq<Seq<char>>) -> int {
    100 * distinct(course_ids(a)).len() + median_of(alt_counts(a, all))
}

pub open spec fn diversity_total(s: Seq<(SectionView, Seq<SectionView>)>, all: Seq<Seq<char>>) -> int
    decreases s.len(),
{
    if s.len() == 0 {
        0
    } else {
        diversity_total(s.drop_last(), all) + diversity(s.last().1, all)
    }
}

/// Score of a schedule, in hundredths: instructor ratings, plus the mean
/// alternate rating, plus the alternate diversity of each section.
pub open spec fn score(s: Seq<(SectionView, Seq<SectionView>)>, all: Seq<Seq<char>>) -> int {
    prof_total(s) + mean_alt_average(s) + diversity_total(s, all)
}

pub(crate) fn has_id(keys: &Vec<String>, id: &String) -> (r: bool)
    ensures
        r == strs(keys@).contains(id@),
{
    let mut i: usize = 0;
    while i < keys.len()
        invariant
            0 <= i <= keys.len(),
            forall|j: int| 0 <= j < i ==> strs(keys@)[j] != id@,
        decreases keys.len() - i,
    {
        if keys[i] == *id {
            assert(strs(keys@)[i as int] == id@);
            return true;
        }
        i = i + 1;
    }
    false
}

pub(crate) fn count_of(a: &Vec<Section>, id: &String) -> (r: u64)
    ensures
        r == count_course(views(a@), id@),
{
    let mut n: u64 = 0;
    let mut i: usize = 0;
    while i < a.len()
        invariant
            0 <= i <= a.len(),
            n <= i,
            n == count_course(views(a@.subrange(0, i as int)), id@),
        decreases a.len() - i,
    {
        proof {
            assert(views(a@.subrange(0, i + 1)).drop_last() =~= views(a@.subrange(0, i as int)));
        }
        if a[i].course == *id {
            n = n + 1;
        }
        i = i + 1;
    }
    proof {
        assert(a@.subrange(0, a@.len() as int) =~= a@);
    }
    n
}

proof fn lemma_distinct_len(s: Seq<Seq<char>>)
    ensures
        distinct(s).len() <= s.len(),
    decreases s.len(),
{
    if s.len() > 0 {
        lemma_distinct_len(s.drop_last());
    }
}

fn section_diversity(a: &Vec<Section>, all: &Vec<String>) -> (r: u128)
    ensures
        r == diversity(views(a@), strs(all@)),
        r <= 0x100_0000_0000_0000_0000,
{
    let ghost full = course_ids(views(a@)) + strs(all@);
    let mut keys: Vec<String> = Vec::new();
    let mut i: usize = 0;
    while i < a.len()
        invariant
            0 <= i <= a.len(),
            full == course_ids(views(a@)) + strs(all@),
            strs(keys@) == distinct(full.subrange(0, i as int)),
        decreases a.len() - i,
    {
        proof {
            assert(full.subrange(0, i + 1).drop_last() =~= full.subrange(0, i as int));
            assert(full.subrange(0, i + 1).last() == a@[i as int].course@);
        }
        if !has_id(&keys, &a[i].course) {
            let ghost before = keys@;
            keys.push(a[i].course.clone());
            proof {
                assert(strs(keys@) =~= strs(before).push(a@[i as int].course@));
            }
        }
        i = i + 1;
    }
    proof {
        assert(full.subrange(0, a@.len() as int) =~= course_ids(views(a@)));
        lemma_distinct_len(course_ids(views(a@)));
    }
    let nd: usize = keys.len();
    let mut j: usize = 0;
    while j < all.len()
        invariant
            0 <= j <= all.len(),
            full == course_ids(views(a@)) + strs(all@),
            full.len() == a@.len() + all@.len(),
            strs(keys@) == distinct(full.subrange(0, a@.len() + j)),
        decreases all.len() - j,
    {
        proof {
            let n = a@.len() + j;
            assert(full.subrange(0, n + 1).drop_last() =~= full.subrange(0, n as int));
            assert(full.subrange(0, n + 1).last() == all@[j as int]@);
        }
        if !has_id(&keys, &all[j]) {
            let ghost before = keys@;
            keys.push(all[j].clone());
            proof {
                assert(strs(keys@) =~= strs(before).push(all@[j as int]@));
            }
        }
        j = j + 1;
    }
    proof {
        assert(full.subrange(0, full.len() as int) =~= full);
    }
    let mut counts: Vec<u64> = Vec::new();
    let mut k: usize = 0;
    while k < keys.len()
        invariant
            0 <= k <= keys.len(),
            strs(keys@) == distinct(full),
            counts@.len() == k,
            forall|m: int| 0 <= m < k ==> #[trigger] counts@[m] == count_course(views(a@), strs(keys@)[m]) as u64,
        decreases keys.len() - k,
    {
        let c: u64 = count_of(a, &keys[k]);
        counts.push(c);
        k = k + 1;
    }
    proof {
        assert(counts@ =~= alt_counts(views(a@), strs(all@)));
    }
    let med: u128 = median(&counts);
    proof {
        let t = counts@.sort_by(u64_leq());
        lemma_u64_leq_total();
        counts@.lemma_sort_by_ensures(u64_leq());
        assert(t.to_multiset().len() == counts@.to_multiset().len());
        counts@.to_multiset_ensures();
        t.to_multiset_ensures();
        if t.len() > 0 {
            assert(t[(t.len() / 2) as int] <= u64::MAX);
        }
    }
    100 * (nd as u128) + med
}

} // verus!

verus! {

///gives a rating of the inputted schedule for ordering, in hundredths
pub fn rating(schedule: &Vec<(Section, Vec<Section>)>, all_alternates: &Vec<String>) -> (r: u128)
    requires
        schedule@.len() <= u32::MAX,
    ensures
        r == score(annotated(schedule@), strs(all_alternates@)),
{
    let ghost s = annotated(schedule@);
    let mut prof: u128 = 0;
    let mut alt_total: u128 = 0;
    let mut div: u128 = 0;
    let mut k: usize = 0;
    while k < schedule.len()
        invariant
            0 <= k <= schedule.len(),
            schedule@.len() <= u32::MAX,
            s == annotated(schedule@),
            prof == prof_total(s.subrange(0, k as int)),
            alt_total == alt_average_total(s.subrange(0, k as int)),
            div == diversity_total(s.subrange(0, k as int), strs(all_alternates@)),
            prof <= k * 0x1_0000_0000,
            alt_total <= k * 0x1_0000_0000,
            div <= k * 0x100_0000_0000_0000_0000,
        decreases schedule.len() - k,
    {
        proof {
            assert(s.subrange(0, k + 1).drop_last() =~= s.subrange(0, k as int));
            assert(s.subrange(0, k + 1).last() == s[k as int]);
        }
        let (sec, alts) = (&schedule[k].0, &schedule[k].1);
        prof = prof + sec.professor.rating as u128;
        let mut sum: u128 = 0;
        let mut i: usize = 0;
        while i < alts.len()
            invariant
                0 <= i <= alts.len(),
                sum == rating_sum(views(alts@.subrange(0, i as int))),
                sum <= i * 0x1_0000_0000,
            decreases alts.len() - i,
        {
            proof {
                assert(views(alts@.subrange(0, i + 1)).drop_last() =~= views(alts@.subrange(0, i as int)));
            }
            sum = sum + alts[i].professor.rating as u128;
            i = i + 1;
        }
        proof {
            assert(alts@.subrange(0, alts@.len() as int) =~= alts@);
        }
        let avg: u128 = if alts.len() == 0 {
            0
        } else {
            sum / (alts.len() as u128)
        };
        proof {
            if alts.len() > 0 {
                assert(sum / (alts.len() as u128) <= 0x1_0000_0000) by (nonlinear_arith)
                    requires
                        sum <= alts.len() * 0x1_0000_0000,
                        alts.len() > 0,
                {
                }
            }
        }
        alt_total = alt_total + avg;
        div = div + section_diversity(alts, all_alternates);
        k = k + 1;
    }
    proof {
        assert(s.subrange(0, s.len() as int) =~= s);
    }
    let mean: u128 = if schedule.len() == 0 {
        0
    } else {
        alt_total / (schedule.len() as u128)
    };
    proof {
        if schedule.len() > 0 {
            assert(alt_total / (schedule.len() as u128) <= alt_total) by (nonlinear_arith)
                requires
                    schedule.len() > 0,
            {
            }
        }
    }
    prof + mean + div
}

proof fn lemma_prof_total_monotone(
    s: Seq<(SectionView, Seq<SectionView>)>,
    t: Seq<(SectionView, Seq<SectionView>)>,
    k: int,
)
    requires
        s.len() == t.len(),
        0 <= k < s.len(),
        forall|m: int| 0 <= m < s.len() && m != k ==> s[m] == t[m],
        s[k].1 == t[k].1,
        s[k].0.rating <= t[k].0.rating,
    ensures
        prof_total(s) <= prof_total(t),
        alt_average_total(s) == alt_average_total(t),
        forall|all: Seq<Seq<char>>| diversity_total(s, all) == #[trigger] diversity_total(t, all),
    decreases s.len(),
{
    if k < s.len() - 1 {
        assert(s.last() == t.last());
        lemma_prof_total_monotone(s.drop_last(), t.drop_last(), k);
    } else {
        assert(s.drop_last() =~= t.drop_last());
    }
    assert forall|all: Seq<Seq<char>>| diversity_total(s, all) == #[trigger] diversity_total(t, all) by {
        assert(diversity_total(s.drop_last(), all) == diversity_total(t.drop_last(), all));
    }
}

/// Raising the instructor rating of one section of a schedule, all else held,
/// never lowers the schedule's score.
pub proof fn lemma_rating_monotone(
    s: Seq<(SectionView, Seq<SectionView>)>,
    t: Seq<(SectionView, Seq<SectionView>)>,
    k: int,
    all: Seq<Seq<char>>,
)
    requires
        s.len() == t.len(),
        0 <= k < s.len(),
        forall|m: int| 0 <= m < s.len() && m != k ==> s[m] == t[m],
        s[k].1 == t[k].1,
        s[k].0.rating <= t[k].0.rating,
    ensures
        score(s, all) <= score(t, all),
{
    lemma_prof_total_monotone(s, t, k);
    assert(diversity_total(s, all) == diversity_total(t, all));
}

} // verus!
