//! Sets of sequence numbers, kept as coalesced inclusive ranges.
//!
//! The set itself is `rangemap::RangeInclusiveSet<i64>`. Its code is not
//! verified here: the functions in the first half of this file state what the
//! crate's operations do, and everything else in the library is proved from
//! those statements.

use rangemap::RangeInclusiveSet;
use vstd::prelude::*;

verus! {

/// Makes `rangemap::RangeInclusiveSet` known to the verifier as an opaque type.
#[verifier::external_type_specification]
#[verifier::external_body]
#[verifier::reject_recursive_types(T)]
#[verifier::reject_recursive_types(StepFnsT)]
pub struct ExRangeInclusiveSet<T, StepFnsT>(RangeInclusiveSet<T, StepFnsT>);

/// The values covered by some range stored in the set.
pub uninterp spec fn seq_values(s: RangeInclusiveSet<i64>) -> Set<int>;

/// The values `lo..=hi` as a mathematical set (empty when `lo > hi`).
pub open spec fn span(lo: int, hi: int) -> Set<int> {
    Set::new(|x: int| lo <= x <= hi)
}

/// A list of inclusive ranges in ascending order, each non-empty, with at
/// least one value left out between any two neighbours.
pub open spec fn separated(ranges: Seq<(i64, i64)>) -> bool {
    &&& forall|i: int| 0 <= i < ranges.len() ==> (#[trigger] ranges[i]).0 <= ranges[i].1
    &&& forall|i: int, j: int|
        0 <= i < j < ranges.len() ==> (#[trigger] ranges[i]).1 + 1 < (#[trigger] ranges[j]).0
}

/// Whether `x` lies in one of the listed ranges.
pub open spec fn in_ranges(ranges: Seq<(i64, i64)>, x: int) -> bool {
    exists|i: int| 0 <= i < ranges.len() && (#[trigger] ranges[i]).0 <= x <= ranges[i].1
}

/// Adding a range at the end of a list adds its values to those of the list.
pub proof fn lemma_in_ranges_push(ranges: Seq<(i64, i64)>, r: (i64, i64), x: int)
    ensures
        in_ranges(ranges.push(r), x) <==> (in_ranges(ranges, x) || r.0 <= x <= r.1),
{
    let longer = ranges.push(r);
    if in_ranges(ranges, x) {
        let i = choose|i: int| 0 <= i < ranges.len() && (#[trigger] ranges[i]).0 <= x <= ranges[i].1;
        assert(longer[i] == ranges[i]);
    }
    if r.0 <= x <= r.1 {
        assert(longer[ranges.len() as int] == r);
    }
    if in_ranges(longer, x) {
        let i = choose|i: int| 0 <= i < longer.len() && (#[trigger] longer[i]).0 <= x <= longer[i].1;
        if i < ranges.len() {
            assert(longer[i] == ranges[i]);
        }
    }
}

/// `RangeInclusiveSet::new`: the result covers nothing.
#[verifier::external_body]
pub(crate) fn seqs_new() -> (s: RangeInclusiveSet<i64>)
    ensures
        seq_values(s) == Set::<int>::empty(),
{
    RangeInclusiveSet::new()
}

/// `RangeInclusiveSet::insert`: afterwards the set covers what it covered
/// before and every value of `lo..=hi`. The outside function panics on a
/// range whose start lies after its end, which `requires` leaves out.
#[verifier::external_body]
pub(crate) fn seqs_insert(s: &mut RangeInclusiveSet<i64>, lo: i64, hi: i64)
    requires
        lo <= hi,
    ensures
        seq_values(*final(s)) == seq_values(*old(s)).union(span(lo as int, hi as int)),
{
    s.insert(lo..=hi)
}

/// `RangeInclusiveSet::contains`: whether some stored range covers `x`.
#[verifier::external_body]
pub(crate) fn seqs_contains(s: &RangeInclusiveSet<i64>, x: i64) -> (b: bool)
    ensures
        b == seq_values(*s).contains(x as int),
{
    s.contains(&x)
}

/// `RangeInclusiveSet::iter`: the stored ranges in ascending order. Ranges
/// that overlap or touch are merged on insertion, so the ranges handed out
/// are separated, and together they cover exactly the set's values.
#[verifier::external_body]
pub(crate) fn seqs_ranges(s: &RangeInclusiveSet<i64>) -> (ranges: Vec<(i64, i64)>)
    ensures
        separated(ranges@),
        forall|x: int| seq_values(*s).contains(x) <==> in_ranges(ranges@, x),
{
    s.iter().map(|r| (*r.start(), *r.end())).collect()
}

/// `RangeInclusiveSet::gaps`: the maximal ranges inside `lo..=hi` that the
/// set does not cover, in ascending order.
#[verifier::external_body]
pub(crate) fn seqs_gaps(s: &RangeInclusiveSet<i64>, lo: i64, hi: i64) -> (gaps: Vec<(i64, i64)>)
    ensures
        separated(gaps@),
        forall|x: int|
            in_ranges(gaps@, x) <==> (lo <= x <= hi && !seq_values(*s).contains(x)),
{
    s.gaps(&(lo..=hi)).map(|r| (*r.start(), *r.end())).collect()
}

/// `Clone::clone` of a `RangeInclusiveSet`: the copy covers the same values.
#[verifier::external_body]
pub(crate) fn seqs_clone(s: &RangeInclusiveSet<i64>) -> (c: RangeInclusiveSet<i64>)
    ensures
        seq_values(c) == seq_values(*s),
{
    s.clone()
}

/// The values that lie in one of the listed ranges.
pub open spec fn ranges_values(ranges: Seq<(i64, i64)>) -> Set<int> {
    Set::new(|x: int| in_ranges(ranges, x))
}

/// Whether no listed range starts after it ends.
pub open spec fn all_ordered(ranges: Seq<(i64, i64)>) -> bool {
    forall|i: int| 0 <= i < ranges.len() ==> (#[trigger] ranges[i]).0 <= ranges[i].1
}

/// The set that covers the listed ranges, which may overlap and come in any
/// order. There is none if a range starts after it ends.
pub fn seqs_from_ranges(ranges: &Vec<(i64, i64)>) -> (r: Option<RangeInclusiveSet<i64>>)
    ensures
        match r {
            Some(s) => all_ordered(ranges@) && seq_values(s) == ranges_values(ranges@),
            None => !all_ordered(ranges@),
        },
{
    let mut s = seqs_new();
    assert(seq_values(s) =~= ranges_values(ranges@.take(0)));
    let mut i: usize = 0;
    while i < ranges.len()
        invariant
            i <= ranges@.len(),
            all_ordered(ranges@.take(i as int)),
            seq_values(s) == ranges_values(ranges@.take(i as int)),
        decreases ranges@.len() - i,
    {
        let (lo, hi) = ranges[i];
        if lo > hi {
            return None;
        }
        let ghost before = seq_values(s);
        seqs_insert(&mut s, lo, hi);
        proof {
            let done = ranges@.take(i as int);
            assert(ranges@.take(i + 1) =~= done.push((lo, hi)));
            assert forall|x: int|
                seq_values(s).contains(x) <==> ranges_values(done.push((lo, hi))).contains(
                    x,
                ) by {
                lemma_in_ranges_push(done, (lo, hi), x);
            }
            assert(seq_values(s) =~= ranges_values(ranges@.take(i + 1)));
            assert forall|j: int| 0 <= j < i + 1 implies (#[trigger] ranges@.take(i + 1)[j]).0
                <= ranges@.take(i + 1)[j].1 by {
                if j < i {
                    assert(done[j] == ranges@.take(i + 1)[j]);
                }
            }
        }
        i = i + 1;
    }
    assert(ranges@.take(i as int) =~= ranges@);
    Some(s)
}

/// Whether the set covers every value of `lo..=hi`, that is, whether the
/// range has no gap in it.
pub fn seqs_cover(s: &RangeInclusiveSet<i64>, lo: i64, hi: i64) -> (b: bool)
    ensures
        b == span(lo as int, hi as int).subset_of(seq_values(*s)),
{
    let gaps = seqs_gaps(s, lo, hi);
    proof {
        if gaps@.len() > 0 {
            let g = gaps@[0];
            assert(g.0 <= g.1);
            assert(in_ranges(gaps@, g.0 as int));
            assert(span(lo as int, hi as int).contains(g.0 as int));
        } else {
            assert forall|x: int| span(lo as int, hi as int).contains(x) implies seq_values(
                *s,
            ).contains(x) by {
                assert(!in_ranges(gaps@, x));
            }
        }
    }
    gaps.len() == 0
}

} // verus!
