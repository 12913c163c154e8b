use vstd::prelude::*;
use vstd::relations::sorted_by;

use crate::display::chars_le;
use crate::rank::{course_ids, strs};
use crate::structs::{Section, SectionView, views};

verus! {

/// Order of a key and its position: by the key's characters, then by position.
pub open spec fn keyed_le(a: (String, usize), b: (String, usize)) -> bool {
    if a.0@ == b.0@ {
        a.1 <= b.1
    } else {
        chars_le(a.0@, b.0@)
    }
}

pub open spec fn keyed_order() -> spec_fn((String, usize), (String, usize)) -> bool {
    |a: (String, usize), b: (String, usize)| keyed_le(a, b)
}

/// Relies on `slice::sort` for pairs of a `String` and a `usize`: the same pairs,
/// ordered lexicographically, the strings by their bytes (in UTF-8 the order of
/// their code points), then the integers.
#[verifier::external_body]
fn sort_keyed(v: &mut Vec<(String, usize)>)
    ensures
        final(v)@.to_multiset() == old(v)@.to_multiset(),
        sorted_by(final(v)@, keyed_order()),
{
    v.sort();
}

/// `r` lists each position of `keys` once, in the order of the keys, positions
/// with equal keys in ascending order.
pub open spec fn orders_keys(keys: Seq<Seq<char>>, r: Seq<usize>) -> bool {
    &&& r.len() == keys.len()
    &&& forall|k: int| 0 <= k < r.len() ==> #[trigger] r[k] < keys.len()
    &&& forall|k1: int, k2: int| 0 <= k1 < k2 < r.len() ==> #[trigger] r[k1] != #[trigger] r[k2]
    &&& forall|k1: int, k2: int|
        0 <= k1 < k2 < r.len() ==> if #[trigger] keys[r[k1] as int] == #[trigger] keys[r[k2] as int] {
            r[k1] < r[k2]
        } else {
            chars_le(keys[r[k1] as int], keys[r[k2] as int])
        }
}

/// The positions of `keys`, ordered by key and, among equal keys, by position.
pub fn sorted_positions(keys: &Vec<String>) -> (r: Vec<usize>)
    ensures
        orders_keys(strs(keys@), r@),
{
    let n: usize = keys.len();
    let mut pairs: Vec<(String, usize)> = Vec::new();
    let mut j: usize = 0;
    while j < n
        invariant
            0 <= j <= n,
            n == keys@.len(),
            pairs@.len() == j,
            forall|q: int| 0 <= q < j ==> (#[trigger] pairs@[q]).1 == q && pairs@[q].0 == keys@[q],
        decreases n - j,
    {
        pairs.push((keys[j].clone(), j));
        j = j + 1;
    }
    let ghost unsorted = pairs@;
    proof {
        assert(unsorted.no_duplicates()) by {
            assert forall|a: int, b: int| 0 <= a < unsorted.len() && 0 <= b < unsorted.len() && a != b implies unsorted[a] != unsorted[b] by {
                assert(unsorted[a].1 == a);
                assert(unsorted[b].1 == b);
            }
        }
        unsorted.lemma_multiset_has_no_duplicates();
    }
    sort_keyed(&mut pairs);
    proof {
        pairs@.to_multiset_ensures();
        unsorted.to_multiset_ensures();
        pairs@.lemma_multiset_has_no_duplicates_conv();
        assert forall|k: int| 0 <= k < pairs@.len() implies (#[trigger] pairs@[k]).1 < n && pairs@[k].0 == keys@[pairs@[k].1 as int] by {
            assert(pairs@.to_multiset().count(pairs@[k]) > 0);
            assert(unsorted.contains(pairs@[k]));
            let a = choose|a: int| 0 <= a < unsorted.len() && unsorted[a] == pairs@[k];
            assert(unsorted[a].1 == a);
        }
    }
    let mut r: Vec<usize> = Vec::new();
    let mut k: usize = 0;
    while k < pairs.len()
        invariant
            0 <= k <= pairs@.len(),
            pairs@.len() == n,
            r@.len() == k,
            forall|q: int| 0 <= q < k ==> #[trigger] r@[q] == pairs@[q].1,
        decreases pairs@.len() - k,
    {
        r.push(pairs[k].1);
        k = k + 1;
    }
    proof {
        let ks = strs(keys@);
        assert forall|k1: int, k2: int| 0 <= k1 < k2 < r@.len() implies #[trigger] r@[k1] != #[trigger] r@[k2] by {
            assert(pairs@[k1] != pairs@[k2]);
            if r@[k1] == r@[k2] {
                assert(pairs@[k1].0 == pairs@[k2].0);
                assert(pairs@[k1] == pairs@[k2]);
            }
        }
        assert forall|k1: int, k2: int| 0 <= k1 < k2 < r@.len() implies if #[trigger] ks[r@[k1] as int] == #[trigger] ks[r@[k2] as int] {
            r@[k1] < r@[k2]
        } else {
            chars_le(ks[r@[k1] as int], ks[r@[k2] as int])
        } by {
            assert(keyed_order()(pairs@[k1], pairs@[k2]));
            assert(pairs@[k1] != pairs@[k2]);
        }
    }
    r
}

} // verus!

verus! {

/// `t` holds the sections of `s`, each once, in some order.
pub open spec fn rearrangement(s: Seq<SectionView>, t: Seq<SectionView>) -> bool {
    exists|perm: Seq<usize>|
        #![trigger perm.len()]
        perm.len() == s.len() && t.len() == s.len() && (forall|k: int|
            0 <= k < t.len() ==> #[trigger] perm[k] < s.len() && t[k] == s[perm[k] as int]) && (
        forall|k1: int, k2: int| 0 <= k1 < k2 < t.len() ==> #[trigger] perm[k1] != #[trigger] perm[k2])
}

/// The sections of `t` come in the order of their course identifiers.
pub open spec fn by_course(t: Seq<SectionView>) -> bool {
    forall|a: int, b: int| 0 <= a < b < t.len() ==> chars_le(#[trigger] t[a].course, #[trigger] t[b].course)
}

/// The sections of `t` come in the order of their course identifiers, then of
/// their section identifiers.
pub open spec fn by_course_section(t: Seq<SectionView>) -> bool {
    forall|a: int, b: int|
        0 <= a < b < t.len() ==> chars_le(#[trigger] t[a].course, #[trigger] t[b].course) && (t[a].course
            == t[b].course ==> chars_le(t[a].section, t[b].section))
}

pub proof fn lemma_chars_le_reflexive(a: Seq<char>)
    ensures
        chars_le(a, a),
    decreases a.len(),
{
    if a.len() > 0 {
        lemma_chars_le_reflexive(a.drop_first());
    }
}

fn reorder(s: &Vec<Section>, pos: &Vec<usize>) -> (r: Vec<Section>)
    requires
        pos@.len() == s@.len(),
        forall|k: int| 0 <= k < pos@.len() ==> #[trigger] pos@[k] < s@.len(),
    ensures
        r@.len() == s@.len(),
        forall|k: int| 0 <= k < r@.len() ==> #[trigger] r@[k]@ == s@[pos@[k] as int]@,
{
    let mut r: Vec<Section> = Vec::new();
    let mut k: usize = 0;
    while k < pos.len()
        invariant
            0 <= k <= pos@.len(),
            pos@.len() == s@.len(),
            forall|k: int| 0 <= k < pos@.len() ==> #[trigger] pos@[k] < s@.len(),
            r@.len() == k,
            forall|q: int| 0 <= q < k ==> #[trigger] r@[q]@ == s@[pos@[q] as int]@,
        decreases pos@.len() - k,
    {
        r.push(s[pos[k]].copy());
        k = k + 1;
    }
    r
}

fn course_keys(s: &Vec<Section>) -> (r: Vec<String>)
    ensures
        strs(r@) == course_ids(views(s@)),
{
    let mut r: Vec<String> = Vec::new();
    let mut k: usize = 0;
    while k < s.len()
        invariant
            0 <= k <= s@.len(),
            r@.len() == k,
            forall|q: int| 0 <= q < k ==> (#[trigger] r@[q])@ == s@[q].course@,
        decreases s@.len() - k,
    {
        r.push(s[k].course.clone());
        k = k + 1;
    }
    proof {
        assert(strs(r@) =~= course_ids(views(s@)));
    }
    r
}

fn section_keys(s: &Vec<Section>) -> (r: Vec<String>)
    ensures
        r@.len() == s@.len(),
        forall|q: int| 0 <= q < r@.len() ==> strs(r@)[q] == (#[trigger] s@[q]).section@,
{
    let mut r: Vec<String> = Vec::new();
    let mut k: usize = 0;
    while k < s.len()
        invariant
            0 <= k <= s@.len(),
            r@.len() == k,
            forall|q: int| 0 <= q < k ==> (#[trigger] r@[q])@ == s@[q].section@,
        decreases s@.len() - k,
    {
        r.push(s[k].section.clone());
        k = k + 1;
    }
    r
}

/// The sections in the order of their course identifiers, sections of one
/// course keeping their order.
pub fn sort_by_course(s: &Vec<Section>) -> (r: Vec<Section>)
    ensures
        rearrangement(views(s@), views(r@)),
        by_course(views(r@)),
        forall|a: int, b: int|
            0 <= a < b < r@.len() && #[trigger] r@[a].course@ == #[trigger] r@[b].course@ ==> exists|i: int, j: int|
                0 <= i < j < s@.len() && s@[i]@ == r@[a]@ && s@[j]@ == r@[b]@,
{
    let keys: Vec<String> = course_keys(s);
    let pos: Vec<usize> = sorted_positions(&keys);
    let r: Vec<Section> = reorder(s, &pos);
    proof {
        let ks = strs(keys@);
        assert(views(r@).len() == views(s@).len());
        assert forall|k: int| 0 <= k < views(r@).len() implies #[trigger] pos@[k] < views(s@).len() && views(r@)[k] == views(s@)[pos@[k] as int] by {
            assert(r@[k]@ == s@[pos@[k] as int]@);
        }
        assert(pos@.len() == views(s@).len());
        assert forall|a: int, b: int| 0 <= a < b < views(r@).len() implies chars_le(#[trigger] views(r@)[a].course, #[trigger] views(r@)[b].course) by {
            assert(r@[a]@ == s@[pos@[a] as int]@);
            assert(r@[b]@ == s@[pos@[b] as int]@);
            assert(ks[pos@[a] as int] == s@[pos@[a] as int].course@);
            assert(ks[pos@[b] as int] == s@[pos@[b] as int].course@);
            lemma_chars_le_reflexive(ks[pos@[a] as int]);
        }
        assert forall|a: int, b: int|
            0 <= a < b < r@.len() && #[trigger] r@[a].course@ == #[trigger] r@[b].course@ implies exists|i: int, j: int|
                0 <= i < j < s@.len() && s@[i]@ == r@[a]@ && s@[j]@ == r@[b]@ by {
            assert(r@[a]@ == s@[pos@[a] as int]@);
            assert(r@[b]@ == s@[pos@[b] as int]@);
            assert(ks[pos@[a] as int] == s@[pos@[a] as int].course@);
            assert(ks[pos@[b] as int] == s@[pos@[b] as int].course@);
            assert(pos@[a] < pos@[b]);
            assert(s@[pos@[a] as int]@ == r@[a]@ && s@[pos@[b] as int]@ == r@[b]@);
        }
    }
    r
}

} // verus!

verus! {

/// The sections in the order of their course identifiers, then of their section
/// identifiers.
pub fn sort_by_course_section(s: &Vec<Section>) -> (r: Vec<Section>)
    ensures
        rearrangement(views(s@), views(r@)),
        by_course_section(views(r@)),
{
    let skeys: Vec<String> = section_keys(s);
    let p1: Vec<usize> = sorted_positions(&skeys);
    let u: Vec<Section> = reorder(s, &p1);
    let r: Vec<Section> = sort_by_course(&u);
    proof {
        let ks = strs(skeys@);
        let vs = views(s@);
        let vu = views(u@);
        let vr = views(r@);
        // u is ordered by section
        assert forall|i: int, j: int| 0 <= i < j < u@.len() implies chars_le(#[trigger] u@[i]@.section, #[trigger] u@[j]@.section) by {
            assert(u@[i]@ == s@[p1@[i] as int]@);
            assert(u@[j]@ == s@[p1@[j] as int]@);
            assert(ks[p1@[i] as int] == s@[p1@[i] as int].section@);
            assert(ks[p1@[j] as int] == s@[p1@[j] as int].section@);
            lemma_chars_le_reflexive(ks[p1@[i] as int]);
        }
        assert forall|a: int, b: int| 0 <= a < b < vr.len() implies chars_le(#[trigger] vr[a].course, #[trigger] vr[b].course) && (vr[a].course == vr[b].course ==> chars_le(vr[a].section, vr[b].section)) by {
            assert(by_course(vr));
            assert(chars_le(vr[a].course, vr[b].course));
            if vr[a].course == vr[b].course {
                assert(r@[a].course@ == r@[b].course@);
                let (i, j) = choose|i: int, j: int| 0 <= i < j < u@.len() && u@[i]@ == r@[a]@ && u@[j]@ == r@[b]@;
                assert(chars_le(u@[i]@.section, u@[j]@.section));
            }
        }
        let p2 = choose|perm: Seq<usize>|
            #![trigger perm.len()]
            perm.len() == vu.len() && vr.len() == vu.len() && (forall|k: int|
                0 <= k < vr.len() ==> #[trigger] perm[k] < vu.len() && vr[k] == vu[perm[k] as int]) && (
            forall|k1: int, k2: int| 0 <= k1 < k2 < vr.len() ==> #[trigger] perm[k1] != #[trigger] perm[k2]);
        let pc: Seq<usize> = p2.map_values(|i: usize| p1@[i as int]);
        assert forall|k: int| 0 <= k < vr.len() implies #[trigger] pc[k] < vs.len() && vr[k] == vs[pc[k] as int] by {
            assert(p2[k] < vu.len());
            assert(u@[p2[k] as int]@ == s@[p1@[p2[k] as int] as int]@);
        }
        assert forall|k1: int, k2: int| 0 <= k1 < k2 < vr.len() implies #[trigger] pc[k1] != #[trigger] pc[k2] by {
            assert(p2[k1] != p2[k2]);
            let i1 = p2[k1] as int;
            let i2 = p2[k2] as int;
            if i1 < i2 {
                assert(p1@[i1] != p1@[i2]);
            } else {
                assert(p1@[i2] != p1@[i1]);
            }
        }
        assert(pc.len() == vs.len());
    }
    r
}

} // verus!
