//! Per-actor bookkeeping: which versions are applied, buffered or cleared.
//!
//! The versions of one actor are kept as a list of closed ranges in ascending
//! order, each with the state of every version in it. Applied and buffered
//! versions always stand alone; cleared versions that touch are merged into
//! one range. The list's meaning is a map from version to state, and every
//! operation is specified over that map.

use crate::known::{Known, KnownDbVersion};
use crate::seqs::{in_ranges, lemma_in_ranges_push, separated};
use std::collections::BTreeMap;
use vstd::prelude::*;

verus! {

/// One stored range of versions `start..=end`, all in the same state.
#[derive(Debug, PartialEq, Eq)]
pub struct BookedRange {
    pub start: i64,
    pub end: i64,
    pub known: KnownDbVersion,
}

impl BookedRange {
    /// Whether version `v` lies in this range.
    pub open spec fn covers(self, v: int) -> bool {
        self.start <= v <= self.end
    }
}

/// The invariant of a list of stored ranges: no range is empty, each starts
/// after the one before it ends, only cleared ranges span more than one
/// version, and two cleared neighbours never touch.
pub open spec fn ranges_wf(rs: Seq<BookedRange>) -> bool {
    &&& forall|i: int| 0 <= i < rs.len() ==> (#[trigger] rs[i]).start <= rs[i].end
    &&& forall|i: int|
        0 <= i < rs.len() && (#[trigger] rs[i]).known@ != Known::Cleared ==> rs[i].start
            == rs[i].end
    &&& forall|i: int, j: int|
        0 <= i < j < rs.len() ==> (#[trigger] rs[i]).end < (#[trigger] rs[j]).start
    &&& forall|i: int, j: int|
        0 <= i < j < rs.len() && (#[trigger] rs[i]).known@ == Known::Cleared && (
        #[trigger] rs[j]).known@ == Known::Cleared ==> rs[i].end + 1 < rs[j].start
}

/// Whether some range of the list holds version `v`.
pub open spec fn ranges_cover(rs: Seq<BookedRange>, v: int) -> bool {
    exists|i: int| 0 <= i < rs.len() && (#[trigger] rs[i]).covers(v)
}

/// The position of a range that holds version `v`.
pub open spec fn range_index(rs: Seq<BookedRange>, v: int) -> int {
    choose|i: int| 0 <= i < rs.len() && (#[trigger] rs[i]).covers(v)
}

/// The meaning of a list of stored ranges: each covered version with its
/// state.
pub open spec fn ranges_view(rs: Seq<BookedRange>) -> Map<int, Known> {
    Map::new(|v: int| ranges_cover(rs, v), |v: int| rs[range_index(rs, v)].known@)
}

/// In a well-formed list the range that holds a version is unique, so the
/// list's meaning at that version is the state of any range found to hold it.
pub proof fn lemma_range_found(rs: Seq<BookedRange>, i: int, v: int)
    requires
        ranges_wf(rs),
        0 <= i < rs.len(),
        rs[i].covers(v),
    ensures
        ranges_cover(rs, v),
        range_index(rs, v) == i,
        ranges_view(rs).contains_key(v),
        ranges_view(rs)[v] == rs[i].known@,
{
    let j = range_index(rs, v);
    assert(rs[j].covers(v));
    if j < i {
        assert(rs[j].end < rs[i].start);
    } else if i < j {
        assert(rs[i].end < rs[j].start);
    }
}

/// Any stretch of a well-formed list is well-formed.
pub proof fn lemma_stretch_wf(rs: Seq<BookedRange>, i: int, j: int)
    requires
        ranges_wf(rs),
        0 <= i <= j <= rs.len(),
    ensures
        ranges_wf(rs.subrange(i, j)),
{
    let sub = rs.subrange(i, j);
    assert forall|k: int| 0 <= k < sub.len() implies (#[trigger] sub[k]).start <= sub[k].end by {
        assert(sub[k] == rs[i + k]);
    }
    assert forall|k: int|
        0 <= k < sub.len() && (#[trigger] sub[k]).known@ != Known::Cleared implies sub[k].start
        == sub[k].end by {
        assert(sub[k] == rs[i + k]);
    }
    assert forall|k: int, l: int| 0 <= k < l < sub.len() implies (#[trigger] sub[k]).end < (
    #[trigger] sub[l]).start by {
        assert(sub[k] == rs[i + k]);
        assert(sub[l] == rs[i + l]);
    }
    assert forall|k: int, l: int|
        0 <= k < l < sub.len() && (#[trigger] sub[k]).known@ == Known::Cleared && (
        #[trigger] sub[l]).known@ == Known::Cleared implies sub[k].end + 1 < sub[l].start by {
        assert(sub[k] == rs[i + k]);
        assert(sub[l] == rs[i + l]);
    }
}

/// Two well-formed lists, the first ending before the second starts and the
/// two not meeting in touching cleared ranges, join into a well-formed list.
proof fn lemma_join_wf(x: Seq<BookedRange>, y: Seq<BookedRange>)
    requires
        ranges_wf(x),
        ranges_wf(y),
        x.len() > 0 && y.len() > 0 ==> x.last().end < y[0].start,
        x.len() > 0 && y.len() > 0 && x.last().known@ == Known::Cleared && y[0].known@
            == Known::Cleared ==> x.last().end + 1 < y[0].start,
    ensures
        ranges_wf(x + y),
{
    let z = x + y;
    let n = x.len() as int;
    assert forall|k: int| 0 <= k < z.len() implies (#[trigger] z[k]).start <= z[k].end by {
        if k < n {
            assert(z[k] == x[k]);
        } else {
            assert(z[k] == y[k - n]);
        }
    }
    assert forall|k: int|
        0 <= k < z.len() && (#[trigger] z[k]).known@ != Known::Cleared implies z[k].start
        == z[k].end by {
        if k < n {
            assert(z[k] == x[k]);
        } else {
            assert(z[k] == y[k - n]);
        }
    }
    assert forall|k: int, l: int| 0 <= k < l < z.len() implies (#[trigger] z[k]).end < (
    #[trigger] z[l]).start && (z[k].known@ == Known::Cleared && z[l].known@ == Known::Cleared
        ==> z[k].end + 1 < z[l].start) by {
        if l < n {
            assert(z[k] == x[k] && z[l] == x[l]);
        } else if k >= n {
            assert(z[k] == y[k - n] && z[l] == y[l - n]);
        } else {
            assert(z[k] == x[k] && z[l] == y[l - n]);
            let xl = x.last();
            assert(xl == x[n - 1]);
            assert(xl.start <= xl.end);
            assert(y[0].start <= y[0].end);
            if k < n - 1 {
                assert(x[k].end < x[n - 1].start);
            }
            if l - n > 0 {
                assert(y[0].end < y[l - n].start);
            }
        }
    }
}

/// The meaning of a joined list at a version is the meaning of the part that
/// holds the version.
proof fn lemma_join_at(x: Seq<BookedRange>, y: Seq<BookedRange>, v: int)
    requires
        ranges_wf(x),
        ranges_wf(y),
        ranges_wf(x + y),
    ensures
        ranges_cover(x + y, v) == (ranges_cover(x, v) || ranges_cover(y, v)),
        ranges_cover(x, v) ==> ranges_view(x + y)[v] == ranges_view(x)[v],
        ranges_cover(y, v) ==> ranges_view(x + y)[v] == ranges_view(y)[v],
{
    let z = x + y;
    let n = x.len() as int;
    if ranges_cover(x, v) {
        let i = range_index(x, v);
        assert(z[i] == x[i]);
        lemma_range_found(z, i, v);
        lemma_range_found(x, i, v);
    }
    if ranges_cover(y, v) {
        let i = range_index(y, v);
        assert(z[n + i] == y[i]);
        lemma_range_found(z, n + i, v);
        lemma_range_found(y, i, v);
    }
    if ranges_cover(z, v) {
        let k = range_index(z, v);
        if k < n {
            assert(z[k] == x[k]);
        } else {
            assert(z[k] == y[k - n]);
        }
    }
}

/// Replacing the middle of a list. The new middle holds every version from
/// `span_lo` to `span_hi`: those of `versions.0..=versions.1` in state `k`, the
/// others cleared. The old middle held no version outside that span, and held
/// as cleared those that the new one holds as cleared. Then the list's meaning
/// changes by exactly the insertion of `versions` in state `k`.
proof fn lemma_splice(
    left: Seq<BookedRange>,
    old_mid: Seq<BookedRange>,
    mid: Seq<BookedRange>,
    right: Seq<BookedRange>,
    versions: (i64, i64),
    k: Known,
    span_lo: int,
    span_hi: int,
)
    requires
        ranges_wf(left),
        ranges_wf(old_mid),
        ranges_wf(mid),
        ranges_wf(right),
        ranges_wf(old_mid + right),
        ranges_wf(mid + right),
        ranges_wf(left + (old_mid + right)),
        ranges_wf(left + (mid + right)),
        span_lo <= versions.0 <= versions.1 <= span_hi,
        forall|v: int| ranges_cover(mid, v) <==> span_lo <= v <= span_hi,
        forall|v: int|
            span_lo <= v <= span_hi ==> ranges_view(mid)[v] == (if versions.0 <= v <= versions.1 {
                k
            } else {
                Known::Cleared
            }),
        forall|v: int| ranges_cover(old_mid, v) ==> span_lo <= v <= span_hi,
        forall|v: int|
            span_lo <= v <= span_hi && !(versions.0 <= v <= versions.1) ==> ranges_cover(
                old_mid,
                v,
            ) && ranges_view(old_mid)[v] == Known::Cleared,
    ensures
        ranges_view(left + (mid + right)) == inserted(
            ranges_view(left + (old_mid + right)),
            versions,
            k,
        ),
{
    let before = ranges_view(left + (old_mid + right));
    let after = ranges_view(left + (mid + right));
    let want = inserted(before, versions, k);
    assert forall|v: int| #[trigger]
        after.contains_key(v) == want.contains_key(v) && (after.contains_key(v) ==> after[v]
            == want[v]) by {
        lemma_join_at(left, old_mid + right, v);
        lemma_join_at(old_mid, right, v);
        lemma_join_at(left, mid + right, v);
        lemma_join_at(mid, right, v);
        assert(before.contains_key(v) == ranges_cover(left + (old_mid + right), v));
        assert(after.contains_key(v) == ranges_cover(left + (mid + right), v));
        if versions.0 <= v <= versions.1 {
            assert(ranges_cover(mid, v));
        } else if span_lo <= v <= span_hi {
            assert(ranges_cover(mid, v) && ranges_cover(old_mid, v));
        } else {
            assert(!ranges_cover(mid, v) && !ranges_cover(old_mid, v));
        }
    }
    assert(after.dom() =~= want.dom());
    assert(after =~= want);
}

/// How an insertion of the versions `lo..=hi` cuts the list. The ranges
/// before `keep` and from `resume` on stay. Between them come, in this order,
/// what the first range met holds below `lo` (from `left_rest` on, if it stays
/// a range of its own), the new range `new_lo..=new_hi`, and what the last
/// range met holds above `hi` (up to `right_rest`).
struct Cut {
    keep: usize,
    resume: usize,
    new_lo: i64,
    new_hi: i64,
    left_rest: Option<i64>,
    right_rest: Option<i64>,
}

impl Cut {
    /// The ranges that replace `keep..resume`.
    spec fn middle(self, versions: (i64, i64), known: KnownDbVersion) -> Seq<
        BookedRange,
    > {
        let new_range = seq![BookedRange { start: self.new_lo, end: self.new_hi, known }];
        let below = match self.left_rest {
            Some(s) => seq![
                BookedRange {
                    start: s,
                    end: (versions.0 - 1) as i64,
                    known: KnownDbVersion::Cleared,
                },
            ],
            None => Seq::empty(),
        };
        let above = match self.right_rest {
            Some(e) => seq![
                BookedRange {
                    start: (versions.1 + 1) as i64,
                    end: e,
                    known: KnownDbVersion::Cleared,
                },
            ],
            None => Seq::empty(),
        };
        below + new_range + above
    }

    /// The lowest version that the replacing ranges hold.
    spec fn span_lo(self) -> int {
        match self.left_rest {
            Some(s) => s as int,
            None => self.new_lo as int,
        }
    }

    /// The highest version that the replacing ranges hold.
    spec fn span_hi(self) -> int {
        match self.right_rest {
            Some(e) => e as int,
            None => self.new_hi as int,
        }
    }

    /// Whether the cut was made as the insertion makes it, where `a..c` are
    /// the ranges that meet the inserted versions and `cleared` says whether
    /// the new state is the cleared one.
    spec fn fits(
        self,
        rs: Seq<BookedRange>,
        versions: (i64, i64),
        cleared: bool,
        a: int,
        c: int,
    ) -> bool {
        let lo = versions.0;
        let hi = versions.1;
        let overhang_lo = a < c && rs[a].start < lo;
        let overhang_hi = a < c && rs[c - 1].end > hi;
        let joins_lo = cleared && !overhang_lo && a > 0 && rs[a - 1].known@ == Known::Cleared
            && rs[a - 1].end == lo - 1;
        let joins_hi = cleared && !overhang_hi && c < rs.len() && rs[c].known@ == Known::Cleared
            && rs[c].start - 1 == hi;
        &&& ranges_wf(rs)
        &&& lo <= hi
        &&& cleared || lo == hi
        &&& 0 <= a <= c <= rs.len()
        &&& forall|i: int| 0 <= i < a ==> (#[trigger] rs[i]).end < lo
        &&& forall|i: int| a <= i < rs.len() ==> (#[trigger] rs[i]).end >= lo
        &&& forall|i: int| a <= i < c ==> (#[trigger] rs[i]).start <= hi
        &&& forall|i: int| c <= i < rs.len() ==> (#[trigger] rs[i]).start > hi
        &&& self.left_rest == (if overhang_lo && !cleared {
            Some(rs[a].start)
        } else {
            None
        })
        &&& self.right_rest == (if overhang_hi && !cleared {
            Some(rs[c - 1].end)
        } else {
            None
        })
        &&& self.new_lo == (if overhang_lo && cleared {
            rs[a].start
        } else if joins_lo {
            rs[a - 1].start
        } else {
            lo
        })
        &&& self.new_hi == (if overhang_hi && cleared {
            rs[c - 1].end
        } else if joins_hi {
            rs[c].end
        } else {
            hi
        })
        &&& self.keep == (if joins_lo {
            a - 1
        } else {
            a
        })
        &&& self.resume == (if joins_hi {
            c + 1
        } else {
            c
        })
    }

    /// What a fitting cut is known to satisfy; the rest of the reasoning
    /// about an insertion goes by these facts alone.
    #[verifier::opaque]
    spec fn bounded(self, rs: Seq<BookedRange>, versions: (i64, i64), cleared: bool) -> bool {
        let lo = versions.0;
        let hi = versions.1;
        &&& ranges_wf(rs)
        &&& lo <= hi
        &&& cleared || lo == hi
        &&& 0 <= self.keep <= self.resume <= rs.len()
        &&& self.span_lo() <= self.new_lo <= lo
        &&& hi <= self.new_hi <= self.span_hi()
        &&& self.left_rest is Some ==> !cleared && self.span_lo() < lo
        &&& self.right_rest is Some ==> !cleared && self.span_hi() > hi
        &&& !cleared ==> self.new_lo == lo && self.new_hi == hi
        &&& forall|i: int|
            self.keep <= i < self.resume ==> self.span_lo() <= (#[trigger] rs[i]).start
                && rs[i].end <= self.span_hi()
        &&& self.span_lo() < lo ==> self.keep < self.resume && rs[self.keep as int].start
            == self.span_lo() && rs[self.keep as int].end >= lo - 1 && rs[self.keep as int].known@
            == Known::Cleared
        &&& self.span_hi() > hi ==> self.keep < self.resume && rs[self.resume - 1].end
            == self.span_hi() && rs[self.resume - 1].start <= hi + 1 && rs[self.resume
            - 1].known@ == Known::Cleared
        &&& self.keep > 0 ==> rs[self.keep - 1].end < self.span_lo() && (rs[self.keep - 1].known@
            == Known::Cleared && (cleared || self.left_rest is Some) ==> rs[self.keep - 1].end
            + 1 < self.span_lo())
        &&& self.resume < rs.len() ==> self.span_hi() < rs[self.resume as int].start && (
        rs[self.resume as int].known@ == Known::Cleared && (cleared || self.right_rest is Some)
            ==> self.span_hi() + 1 < rs[self.resume as int].start)
    }
}

/// A cut made as the insertion makes it satisfies the bounds.
proof fn lemma_cut_bounded(
    rs: Seq<BookedRange>,
    versions: (i64, i64),
    cleared: bool,
    a: int,
    c: int,
    cut: Cut,
)
    requires
        cut.fits(rs, versions, cleared, a, c),
    ensures
        cut.bounded(rs, versions, cleared),
{
    reveal(Cut::bounded);
    let lo = versions.0;
    let hi = versions.1;
    if a < c {
        assert(rs[a].start <= rs[a].end);
        assert(rs[c - 1].start <= rs[c - 1].end);
        if a < c - 1 {
            assert(rs[a].end < rs[c - 1].start);
        }
        if rs[a].start < lo {
            assert(rs[a].known@ == Known::Cleared);
        }
        if rs[c - 1].end > hi {
            assert(rs[c - 1].known@ == Known::Cleared);
        }
    }
    if a > 0 {
        assert(rs[a - 1].start <= rs[a - 1].end);
        assert(rs[a - 1].end < lo);
        if a < rs.len() {
            assert(rs[a - 1].end < rs[a].start);
        }
        if a - 1 > 0 {
            assert(rs[a - 2].end < rs[a - 1].start);
        }
    }
    if c < rs.len() {
        assert(rs[c].start <= rs[c].end);
        assert(rs[c].start > hi);
        if c > 0 {
            assert(rs[c - 1].end < rs[c].start);
        }
        if c + 1 < rs.len() {
            assert(rs[c].end < rs[c + 1].start);
        }
    }
    assert forall|i: int| cut.keep <= i < cut.resume implies cut.span_lo() <= (
    #[trigger] rs[i]).start && rs[i].end <= cut.span_hi() by {
        assert(rs[i].start <= rs[i].end);
        if a <= i < c {
            if a < i {
                assert(rs[a].end < rs[i].start);
            }
            if i < c - 1 {
                assert(rs[i].end < rs[c - 1].start);
            }
        }
    }
}

/// What the replacing ranges hold: every version from `span_lo` to `span_hi`,
/// the inserted ones in the new state and the others cleared.
proof fn lemma_middle_meaning(cut: Cut, versions: (i64, i64), known: KnownDbVersion)
    requires
        versions.0 <= versions.1,
        known@ == Known::Cleared || versions.0 == versions.1,
        cut.span_lo() <= cut.new_lo <= versions.0,
        versions.1 <= cut.new_hi <= cut.span_hi(),
        cut.left_rest is Some ==> known@ != Known::Cleared && cut.span_lo() < versions.0,
        cut.right_rest is Some ==> known@ != Known::Cleared && cut.span_hi() > versions.1,
        known@ != Known::Cleared ==> cut.new_lo == versions.0 && cut.new_hi == versions.1,
    ensures
        ranges_wf(cut.middle(versions, known)),
        cut.middle(versions, known).len() > 0,
        cut.middle(versions, known)[0].start == cut.span_lo(),
        cut.middle(versions, known).last().end == cut.span_hi(),
        cut.middle(versions, known)[0].known@ == Known::Cleared <==> (known@ == Known::Cleared
            || cut.left_rest is Some),
        cut.middle(versions, known).last().known@ == Known::Cleared <==> (known@
            == Known::Cleared || cut.right_rest is Some),
        forall|v: int|
            ranges_cover(cut.middle(versions, known), v) <==> cut.span_lo() <= v <= cut.span_hi(),
        forall|v: int|
            cut.span_lo() <= v <= cut.span_hi() ==> ranges_view(cut.middle(versions, known))[v]
                == (if versions.0 <= v <= versions.1 {
                known@
            } else {
                Known::Cleared
            }),
{
    let lo = versions.0;
    let hi = versions.1;
    let mid = cut.middle(versions, known);
    let p: int = if cut.left_rest is Some { 1 } else { 0 };
    assert(mid[p].start == cut.new_lo && mid[p].end == cut.new_hi && mid[p].known == known);
    if cut.left_rest is Some {
        assert(mid[0].start == cut.span_lo() && mid[0].end == lo - 1 && mid[0].known@
            == Known::Cleared);
    }
    if cut.right_rest is Some {
        assert(mid[p + 1].start == hi + 1 && mid[p + 1].end == cut.span_hi() && mid[p + 1].known@
            == Known::Cleared);
    }
    assert(ranges_wf(mid));
    assert forall|v: int| ranges_cover(mid, v) <==> cut.span_lo() <= v <= cut.span_hi() by {
        if cut.span_lo() <= v <= cut.span_hi() {
            if cut.left_rest is Some && v < lo {
                assert(mid[0].covers(v));
            } else if cut.right_rest is Some && v > hi {
                assert(mid[p + 1].covers(v));
            } else {
                assert(mid[p].covers(v));
            }
        }
        if ranges_cover(mid, v) {
            let i = range_index(mid, v);
            assert(mid[i].covers(v));
            assert(i == 0 || i == p || i == p + 1);
        }
    }
    assert forall|v: int| cut.span_lo() <= v <= cut.span_hi() implies ranges_view(mid)[v] == (if lo
        <= v <= hi {
        known@
    } else {
        Known::Cleared
    }) by {
        if cut.left_rest is Some && v < lo {
            lemma_range_found(mid, 0, v);
        } else if cut.right_rest is Some && v > hi {
            lemma_range_found(mid, p + 1, v);
        } else {
            lemma_range_found(mid, p, v);
        }
    }
}

/// What the replaced ranges held: versions from `span_lo` to `span_hi` only,
/// and among them every one that is not inserted, as cleared.
proof fn lemma_replaced_meaning(rs: Seq<BookedRange>, versions: (i64, i64), cleared: bool, cut: Cut)
    requires
        cut.bounded(rs, versions, cleared),
    ensures
        forall|v: int|
            ranges_cover(rs.subrange(cut.keep as int, cut.resume as int), v) ==> cut.span_lo()
                <= v <= cut.span_hi(),
        forall|v: int|
            cut.span_lo() <= v <= cut.span_hi() && !(versions.0 <= v <= versions.1)
                ==> ranges_cover(rs.subrange(cut.keep as int, cut.resume as int), v)
                && ranges_view(rs.subrange(cut.keep as int, cut.resume as int))[v]
                == Known::Cleared,
{
    reveal(Cut::bounded);
    let old_mid = rs.subrange(cut.keep as int, cut.resume as int);
    lemma_stretch_wf(rs, cut.keep as int, cut.resume as int);
    assert forall|v: int| ranges_cover(old_mid, v) implies cut.span_lo() <= v <= cut.span_hi() by {
        let i = range_index(old_mid, v);
        assert(old_mid[i] == rs[cut.keep + i]);
    }
    assert forall|v: int|
        cut.span_lo() <= v <= cut.span_hi() && !(versions.0 <= v <= versions.1)
        implies ranges_cover(old_mid, v) && ranges_view(old_mid)[v] == Known::Cleared by {
        if v < versions.0 {
            assert(old_mid[0] == rs[cut.keep as int]);
            lemma_range_found(old_mid, 0, v);
        } else {
            let last = old_mid.len() - 1;
            assert(old_mid[last] == rs[cut.resume - 1]);
            lemma_range_found(old_mid, last, v);
        }
    }
}

/// What the replacing ranges of a bounded cut hold.
proof fn lemma_bounded_middle(
    rs: Seq<BookedRange>,
    versions: (i64, i64),
    known: KnownDbVersion,
    cut: Cut,
)
    requires
        cut.bounded(rs, versions, known@ == Known::Cleared),
    ensures
        ranges_wf(cut.middle(versions, known)),
        cut.span_lo() <= versions.0 <= versions.1 <= cut.span_hi(),
        forall|v: int|
            ranges_cover(cut.middle(versions, known), v) <==> cut.span_lo() <= v <= cut.span_hi(),
        forall|v: int|
            cut.span_lo() <= v <= cut.span_hi() ==> ranges_view(cut.middle(versions, known))[v]
                == (if versions.0 <= v <= versions.1 {
                known@
            } else {
                Known::Cleared
            }),
{
    reveal(Cut::bounded);
    lemma_middle_meaning(cut, versions, known);
}

/// A list is its three stretches joined, and each stretch and each join of
/// neighbouring stretches is well-formed with it.
proof fn lemma_three_stretches(rs: Seq<BookedRange>, i: int, j: int)
    requires
        ranges_wf(rs),
        0 <= i <= j <= rs.len(),
    ensures
        rs == rs.subrange(0, i) + (rs.subrange(i, j) + rs.subrange(j, rs.len() as int)),
        ranges_wf(rs.subrange(0, i)),
        ranges_wf(rs.subrange(i, j)),
        ranges_wf(rs.subrange(j, rs.len() as int)),
        ranges_wf(rs.subrange(i, j) + rs.subrange(j, rs.len() as int)),
{
    let n = rs.len() as int;
    lemma_stretch_wf(rs, 0, i);
    lemma_stretch_wf(rs, i, j);
    lemma_stretch_wf(rs, j, n);
    lemma_stretch_wf(rs, i, n);
    assert(rs.subrange(i, j) + rs.subrange(j, n) =~= rs.subrange(i, n));
    assert(rs.subrange(0, i) + (rs.subrange(i, j) + rs.subrange(j, n)) =~= rs);
}

/// The list that an insertion leaves is well-formed.
proof fn lemma_cut_wf(rs: Seq<BookedRange>, versions: (i64, i64), known: KnownDbVersion, cut: Cut)
    requires
        cut.bounded(rs, versions, known@ == Known::Cleared),
    ensures
        ranges_wf(cut.middle(versions, known) + rs.subrange(cut.resume as int, rs.len() as int)),
        ranges_wf(
            rs.subrange(0, cut.keep as int) + (cut.middle(versions, known) + rs.subrange(
                cut.resume as int,
                rs.len() as int,
            )),
        ),
{
    let n = rs.len() as int;
    let keep = cut.keep as int;
    let resume = cut.resume as int;
    let mid = cut.middle(versions, known);
    let left = rs.subrange(0, keep);
    let right = rs.subrange(resume, n);
    reveal(Cut::bounded);
    lemma_middle_meaning(cut, versions, known);
    lemma_stretch_wf(rs, 0, keep);
    lemma_stretch_wf(rs, resume, n);
    if right.len() > 0 {
        assert(right[0] == rs[resume]);
    }
    lemma_join_wf(mid, right);
    if left.len() > 0 {
        assert(left.last() == rs[keep - 1]);
        assert((mid + right)[0] == mid[0]);
    }
    lemma_join_wf(left, mid + right);
}

/// The list that an insertion leaves is well-formed, and it means what the
/// list meant before with the inserted versions set to the new state.
#[verifier::spinoff_prover]
proof fn lemma_cut_result(
    rs: Seq<BookedRange>,
    versions: (i64, i64),
    known: KnownDbVersion,
    cut: Cut,
)
    requires
        cut.keep <= cut.resume <= rs.len(),
        ranges_wf(rs),
        cut.bounded(rs, versions, known@ == Known::Cleared),
    ensures
        ranges_wf(
            rs.subrange(0, cut.keep as int) + (cut.middle(versions, known) + rs.subrange(
                cut.resume as int,
                rs.len() as int,
            )),
        ),
        ranges_view(
            rs.subrange(0, cut.keep as int) + (cut.middle(versions, known) + rs.subrange(
                cut.resume as int,
                rs.len() as int,
            )),
        ) == inserted(ranges_view(rs), versions, known@),
{
    let n = rs.len() as int;
    let keep = cut.keep as int;
    let resume = cut.resume as int;
    let mid = cut.middle(versions, known);
    let left = rs.subrange(0, keep);
    let old_mid = rs.subrange(keep, resume);
    let right = rs.subrange(resume, n);
    lemma_cut_wf(rs, versions, known, cut);
    lemma_bounded_middle(rs, versions, known, cut);
    lemma_replaced_meaning(rs, versions, known@ == Known::Cleared, cut);
    lemma_three_stretches(rs, keep, resume);
    lemma_splice(left, old_mid, mid, right, versions, known@, cut.span_lo(), cut.span_hi());
}

/// Whether two lists hold the same ranges in the same states, one by one.
pub open spec fn same_ranges(x: Seq<BookedRange>, y: Seq<BookedRange>) -> bool {
    &&& x.len() == y.len()
    &&& forall|i: int|
        0 <= i < x.len() ==> (#[trigger] x[i]).start == y[i].start && x[i].end == y[i].end
            && x[i].known@ == y[i].known@
}

/// What a well-formed list means without its last range.
proof fn lemma_front_view(rs: Seq<BookedRange>, v: int)
    requires
        ranges_wf(rs),
        rs.len() > 0,
    ensures
        ranges_wf(rs.drop_last()),
        ranges_cover(rs.drop_last(), v) == (ranges_cover(rs, v) && !rs.last().covers(v)),
        ranges_cover(rs.drop_last(), v) ==> ranges_view(rs.drop_last())[v] == ranges_view(rs)[v],
        rs.last().covers(v) ==> ranges_cover(rs, v) && ranges_view(rs)[v] == rs.last().known@,
        ranges_cover(rs, v) ==> v <= rs.last().end,
{
    let n = rs.len() - 1;
    let front = rs.drop_last();
    assert(front =~= rs.subrange(0, n));
    lemma_stretch_wf(rs, 0, n);
    if rs.last().covers(v) {
        lemma_range_found(rs, n, v);
    }
    if ranges_cover(front, v) {
        let j = range_index(front, v);
        assert(front[j] == rs[j]);
        assert(rs[j].end < rs[n].start);
        lemma_range_found(rs, j, v);
        lemma_range_found(front, j, v);
    }
    if ranges_cover(rs, v) {
        let j = range_index(rs, v);
        if j < n {
            assert(front[j] == rs[j]);
            assert(rs[j].end < rs[n].start);
            assert(rs[n].start <= rs[n].end);
        }
    }
}

/// The ends of the last ranges of two well-formed lists with one meaning.
proof fn lemma_same_last(x: Seq<BookedRange>, y: Seq<BookedRange>)
    requires
        ranges_wf(x),
        ranges_wf(y),
        ranges_view(x) == ranges_view(y),
        x.len() > 0,
    ensures
        y.len() > 0,
        x.last().start == y.last().start,
        x.last().end == y.last().end,
        x.last().known@ == y.last().known@,
{
    let xl = x.last();
    assert(xl.start <= xl.end);
    lemma_front_view(x, xl.end as int);
    assert(ranges_view(y).contains_key(xl.end as int));
    assert(ranges_cover(y, xl.end as int));
    let yl = y.last();
    assert(yl.start <= yl.end);
    lemma_front_view(y, xl.end as int);
    lemma_front_view(y, yl.end as int);
    lemma_front_view(x, yl.end as int);
    assert(ranges_view(x).contains_key(yl.end as int));
    assert(xl.end == yl.end);
    assert(xl.known@ == yl.known@);
    lemma_low_end(x, y);
    lemma_low_end(y, x);
}

/// Where the last ranges of two well-formed lists with one meaning end
/// alike, the one does not start before the other.
proof fn lemma_low_end(x: Seq<BookedRange>, y: Seq<BookedRange>)
    requires
        ranges_wf(x),
        ranges_wf(y),
        ranges_view(x) == ranges_view(y),
        x.len() > 0,
        y.len() > 0,
        x.last().end == y.last().end,
        x.last().known@ == y.last().known@,
    ensures
        x.last().start >= y.last().start,
{
    let xl = x.last();
    let yl = y.last();
    if xl.start < yl.start {
        let v = yl.start - 1;
        assert(yl.start <= yl.end);
        assert(xl.known@ == Known::Cleared);
        lemma_front_view(x, v);
        assert(ranges_view(y).contains_key(v));
        assert(ranges_cover(y, v));
        let j = range_index(y, v);
        let n = y.len() - 1;
        lemma_range_found(y, j, v);
        assert(j < n);
        assert(y[j].end < y[n].start);
        assert(y[j].known@ == Known::Cleared);
        assert(y[j].end + 1 < y[n].start);
    }
}

/// The meaning settles the list: two well-formed lists that mean the same
/// hold the same ranges in the same states. So whatever way a bookkeeping
/// was arrived at, its stored ranges, and the rows that persist them, are
/// those of its meaning.
pub proof fn lemma_one_list_per_meaning(x: Seq<BookedRange>, y: Seq<BookedRange>)
    requires
        ranges_wf(x),
        ranges_wf(y),
        ranges_view(x) == ranges_view(y),
    ensures
        same_ranges(x, y),
    decreases x.len(),
{
    if x.len() == 0 {
        if y.len() > 0 {
            assert(y[0].start <= y[0].end);
            lemma_range_found(y, 0, y[0].start as int);
            assert(ranges_view(x).contains_key(y[0].start as int));
            assert(ranges_cover(x, y[0].start as int));
        }
    } else {
        lemma_same_last(x, y);
        let fx = x.drop_last();
        let fy = y.drop_last();
        assert forall|v: int| #[trigger]
            ranges_view(fx).contains_key(v) == ranges_view(fy).contains_key(v) && (ranges_view(
                fx,
            ).contains_key(v) ==> ranges_view(fx)[v] == ranges_view(fy)[v]) by {
            lemma_front_view(x, v);
            lemma_front_view(y, v);
            assert(ranges_view(x).contains_key(v) == ranges_cover(x, v));
            assert(ranges_view(y).contains_key(v) == ranges_cover(y, v));
        }
        assert(ranges_view(fx).dom() =~= ranges_view(fy).dom());
        assert(ranges_view(fx) =~= ranges_view(fy));
        lemma_front_view(x, 0);
        lemma_front_view(y, 0);
        lemma_one_list_per_meaning(fx, fy);
        assert forall|i: int| 0 <= i < x.len() implies (#[trigger] x[i]).start == y[i].start
            && x[i].end == y[i].end && x[i].known@ == y[i].known@ by {
            if i < x.len() - 1 {
                assert(fx[i] == x[i] && fy[i] == y[i]);
            }
        }
    }
}

/// The bookkeeping `m` after the versions `versions.0..=versions.1` were all
/// set to the state `k`: those versions have that state, every other version
/// is as it was.
pub open spec fn inserted(m: Map<int, Known>, versions: (i64, i64), k: Known) -> Map<
    int,
    Known,
> {
    Map::new(
        |v: int| m.contains_key(v) || versions.0 <= v <= versions.1,
        |v: int|
            if versions.0 <= v <= versions.1 {
                k
            } else {
                m[v]
            },
    )
}

/// Whether the bookkeeping `m` already has version `v`, and, where sequence
/// numbers `seqs.0..=seqs.1` are asked for, each of them too. An applied or
/// cleared version has every sequence number.
pub open spec fn known_in(m: Map<int, Known>, v: int, seqs: Option<(i64, i64)>) -> bool {
    &&& m.contains_key(v)
    &&& match seqs {
        Some(q) => forall|s: int| q.0 <= s <= q.1 ==> m[v].has_seq(s),
        None => true,
    }
}

/// Whether the bookkeeping `m` already has every version of
/// `versions.0..=versions.1`, each with the sequence numbers asked for.
pub open spec fn all_known_in(
    m: Map<int, Known>,
    versions: (i64, i64),
    seqs: Option<(i64, i64)>,
) -> bool {
    forall|v: int| versions.0 <= v <= versions.1 ==> known_in(m, v, seqs)
}

/// Puts the ranges of the cut in place of the ranges `cut.keep..cut.resume`.
fn replace_ranges(
    ranges: &mut Vec<BookedRange>,
    versions: (i64, i64),
    known: KnownDbVersion,
    cut: Cut,
)
    requires
        cut.keep <= cut.resume <= old(ranges)@.len(),
        cut.left_rest is Some ==> versions.0 > i64::MIN,
        cut.right_rest is Some ==> versions.1 < i64::MAX,
    ensures
        final(ranges)@ == old(ranges)@.subrange(0, cut.keep as int) + (cut.middle(versions, known)
            + old(ranges)@.subrange(cut.resume as int, old(ranges)@.len() as int)),
{
    let ghost left = ranges@.subrange(0, cut.keep as int);
    let ghost right = ranges@.subrange(cut.resume as int, ranges@.len() as int);
    let ghost mid = cut.middle(versions, known);
    let mut rest = ranges.split_off(cut.resume);
    ranges.truncate(cut.keep);
    assert(ranges@ =~= left);
    match cut.left_rest {
        Some(s) => {
            ranges.push(
                BookedRange { start: s, end: versions.0 - 1, known: KnownDbVersion::Cleared },
            );
        },
        None => {},
    }
    ranges.push(BookedRange { start: cut.new_lo, end: cut.new_hi, known });
    match cut.right_rest {
        Some(e) => {
            ranges.push(
                BookedRange { start: versions.1 + 1, end: e, known: KnownDbVersion::Cleared },
            );
        },
        None => {},
    }
    assert(ranges@ =~= left + mid);
    ranges.append(&mut rest);
    assert(ranges@ =~= left + (mid + right));
}

/// Whether version `v` is held by one of the first `n` ranges of the list.
spec fn ranges_index_below(rs: Seq<BookedRange>, v: int, n: int) -> bool {
    ranges_cover(rs, v) && range_index(rs, v) < n
}

/// Whether the bookkeeping `m` has version `v` as applied under the store's
/// `db_version`.
pub open spec fn applied_as(m: Map<int, Known>, v: int, db_version: i64) -> bool {
    m.contains_key(v) && match m[v] {
        Known::Current { db_version: d, .. } => d == db_version,
        _ => false,
    }
}

/// Whether version `v` is missing from the bookkeeping `m`: versions count
/// from 1, nothing is known of `v`, and something is known of a later one.
pub open spec fn missing(m: Map<int, Known>, v: int) -> bool {
    1 <= v && !m.contains_key(v) && exists|w: int| v < w && m.contains_key(w)
}

/// Whether `h` is the highest version of which the bookkeeping `m` knows
/// anything.
pub open spec fn is_head(m: Map<int, Known>, h: int) -> bool {
    m.contains_key(h) && forall|v: int| m.contains_key(v) ==> v <= h
}

/// Whether `versions` gives the applied versions of the bookkeeping `m` by
/// `db_version`: its keys are the `db_version`s under which some version is
/// applied, and each comes with the highest version applied under it.
pub open spec fn snapshot_of(m: Map<int, Known>, versions: Map<i64, i64>) -> bool {
    &&& forall|d: i64| versions.contains_key(d) <==> exists|v: int| applied_as(m, v, d)
    &&& forall|d: i64|
        versions.contains_key(d) ==> applied_as(m, #[trigger] versions[d] as int, d) && forall|
            v: int,
        |
            applied_as(m, v, d) ==> v <= versions[d]
}

/// The versions of one actor with what is known of each.
#[derive(Debug, PartialEq, Eq)]
pub struct BookedVersions {
    ranges: Vec<BookedRange>,
}

impl View for BookedVersions {
    type V = Map<int, Known>;

    closed spec fn view(&self) -> Map<int, Known> {
        ranges_view(self.ranges@)
    }
}

impl BookedVersions {
    /// The representation invariant; every constructor establishes it and
    /// every method keeps it.
    pub closed spec fn wf(&self) -> bool {
        ranges_wf(self.ranges@)
    }

    /// Bookkeeping that knows no version.
    pub fn new() -> (b: BookedVersions)
        ensures
            b.wf(),
            b@ == Map::<int, Known>::empty(),
    {
        let b = BookedVersions { ranges: Vec::new() };
        assert(b@ =~= Map::<int, Known>::empty());
        b
    }

    /// The stored ranges in ascending order.
    pub closed spec fn stored(&self) -> Seq<BookedRange> {
        self.ranges@
    }

    /// The stored ranges of well-formed bookkeeping are a well-formed list,
    /// and the bookkeeping means what the list means.
    pub proof fn lemma_stored(&self)
        requires
            self.wf(),
        ensures
            ranges_wf(self.stored()),
            ranges_view(self.stored()) == self@,
    {
    }

    /// The stored ranges in ascending order.
    pub fn ranges(&self) -> (rs: &Vec<BookedRange>)
        requires
            self.wf(),
        ensures
            rs@ == self.stored(),
            ranges_wf(rs@),
            ranges_view(rs@) == self@,
    {
        &self.ranges
    }

    /// The number of ranges that end before `v`: since the list is in
    /// ascending order, the range holding `v`, if there is one, stands at that
    /// position.
    fn position(&self, v: i64) -> (p: usize)
        requires
            self.wf(),
        ensures
            p <= self.ranges@.len(),
            forall|i: int| 0 <= i < p ==> (#[trigger] self.ranges@[i]).end < v,
            forall|i: int| p <= i < self.ranges@.len() ==> (#[trigger] self.ranges@[i]).end >= v,
    {
        let mut lo: usize = 0;
        let mut hi: usize = self.ranges.len();
        while lo < hi
            invariant
                self.wf(),
                lo <= hi <= self.ranges@.len(),
                forall|i: int| 0 <= i < lo ==> (#[trigger] self.ranges@[i]).end < v,
                forall|i: int| hi <= i < self.ranges@.len() ==> (#[trigger] self.ranges@[i]).end >= v,
            decreases hi - lo,
        {
            let mid: usize = lo + (hi - lo) / 2;
            if self.ranges[mid].end < v {
                proof {
                    assert forall|i: int| 0 <= i < mid + 1 implies (#[trigger] self.ranges@[i]).end
                        < v by {
                        if i < mid {
                            assert(self.ranges@[i].end < self.ranges@[mid as int].start);
                        }
                    }
                }
                lo = mid + 1;
            } else {
                proof {
                    assert forall|i: int| mid <= i < self.ranges@.len() implies (
                    #[trigger] self.ranges@[i]).end >= v by {
                        if mid < i {
                            assert(self.ranges@[mid as int].end < self.ranges@[i].start);
                        }
                    }
                }
                hi = mid;
            }
        }
        lo
    }

    /// What is known of version `v`, if anything.
    pub fn get(&self, v: i64) -> (r: Option<&KnownDbVersion>)
        requires
            self.wf(),
        ensures
            match r {
                Some(k) => self@.contains_key(v as int) && self@[v as int] == k@,
                None => !self@.contains_key(v as int),
            },
    {
        let p = self.position(v);
        if p < self.ranges.len() && self.ranges[p].start <= v {
            proof {
                lemma_range_found(self.ranges@, p as int, v as int);
            }
            Some(&self.ranges[p].known)
        } else {
            proof {
                if ranges_cover(self.ranges@, v as int) {
                    let j = range_index(self.ranges@, v as int);
                    if j > p {
                        assert(self.ranges@[p as int].end < self.ranges@[j].start);
                    }
                }
            }
            None
        }
    }

    /// Whether version `v` is already known, with the sequence numbers
    /// `seqs.0..=seqs.1` where some are asked for.
    pub fn contains(&self, v: i64, seqs: Option<(i64, i64)>) -> (b: bool)
        requires
            self.wf(),
        ensures
            b == known_in(self@, v as int, seqs),
    {
        match self.get(v) {
            Some(known) => match seqs {
                Some(q) => known.has_seqs(q.0, q.1),
                None => true,
            },
            None => false,
        }
    }

    /// Whether every version of `versions.0..=versions.1` is already known,
    /// each with the sequence numbers asked for. An empty range of versions
    /// asks for nothing and is known.
    pub fn contains_all(&self, versions: (i64, i64), seqs: Option<(i64, i64)>) -> (b: bool)
        requires
            self.wf(),
        ensures
            b == all_known_in(self@, versions, seqs),
    {
        let (lo, hi) = versions;
        if lo > hi {
            return true;
        }
        let mut i: usize = self.position(lo);
        let mut next: i64 = lo;
        while i < self.ranges.len()
            invariant
                self.wf(),
                versions == (lo, hi),
                lo <= next <= hi,
                i <= self.ranges@.len(),
                forall|j: int| 0 <= j < i ==> (#[trigger] self.ranges@[j]).end < next,
                i < self.ranges@.len() ==> self.ranges@[i as int].end >= next,
                forall|v: int| lo <= v < next ==> known_in(self@, v, seqs),
            decreases self.ranges@.len() - i,
        {
            let r = &self.ranges[i];
            if r.start > next {
                proof {
                    if ranges_cover(self.ranges@, next as int) {
                        let j = range_index(self.ranges@, next as int);
                        if j > i {
                            assert(self.ranges@[i as int].end < self.ranges@[j].start);
                        }
                    }
                    assert(!known_in(self@, next as int, seqs));
                }
                return false;
            }
            proof {
                lemma_range_found(self.ranges@, i as int, next as int);
            }
            let received = match seqs {
                Some(q) => r.known.has_seqs(q.0, q.1),
                None => true,
            };
            if !received {
                assert(!known_in(self@, next as int, seqs));
                return false;
            }
            proof {
                assert forall|v: int| next <= v <= r.end implies known_in(self@, v, seqs) by {
                    lemma_range_found(self.ranges@, i as int, v);
                }
            }
            if r.end >= hi {
                return true;
            }
            next = r.end + 1;
            proof {
                if i + 1 < self.ranges@.len() {
                    assert(self.ranges@[i as int].end < self.ranges@[i + 1].start);
                }
            }
            i = i + 1;
        }
        proof {
            if ranges_cover(self.ranges@, next as int) {
                let j = range_index(self.ranges@, next as int);
                assert(self.ranges@[j].end < next);
            }
            assert(!known_in(self@, next as int, seqs));
        }
        false
    }

    /// The highest version of which anything is known.
    pub fn last(&self) -> (r: Option<i64>)
        requires
            self.wf(),
        ensures
            match r {
                Some(m) => is_head(self@, m as int),
                None => self@ == Map::<int, Known>::empty(),
            },
    {
        let n = self.ranges.len();
        if n == 0 {
            assert(self@ =~= Map::<int, Known>::empty());
            None
        } else {
            let m = self.ranges[n - 1].end;
            proof {
                lemma_range_found(self.ranges@, n - 1, m as int);
                assert forall|v: int| self@.contains_key(v) implies v <= m by {
                    let j = range_index(self.ranges@, v);
                    if j < n - 1 {
                        assert(self.ranges@[j].end < self.ranges@[n - 1].start);
                    }
                }
            }
            Some(m)
        }
    }

    /// Where to cut the list for an insertion of `versions`.
    fn cut_for(&self, versions: (i64, i64), cleared: bool) -> (cut: Cut)
        requires
            self.wf(),
            versions.0 <= versions.1,
            cleared || versions.0 == versions.1,
        ensures
            cut.bounded(self.ranges@, versions, cleared),
            cut.keep <= cut.resume <= self.ranges@.len(),
            cut.left_rest is Some ==> versions.0 > i64::MIN,
            cut.right_rest is Some ==> versions.1 < i64::MAX,
    {
        let (lo, hi) = versions;
        let n = self.ranges.len();
        // The ranges a..c are those that meet lo..=hi.
        let a = self.position(lo);
        let mut c = a;
        while c < n && self.ranges[c].start <= hi
            invariant
                n == self.ranges@.len(),
                a <= c <= n,
                forall|i: int| a <= i < c ==> (#[trigger] self.ranges@[i]).start <= hi,
            decreases n - c,
        {
            c = c + 1;
        }
        proof {
            assert forall|i: int| c <= i < n implies (#[trigger] self.ranges@[i]).start > hi by {
                if c < i {
                    assert(self.ranges@[c as int].end < self.ranges@[i].start);
                    assert(self.ranges@[c as int].start <= self.ranges@[c as int].end);
                }
            }
        }
        // What the first and the last of them hold beyond lo..=hi is cleared:
        // it joins the new range if that is cleared too, and stays as a
        // range of its own if not.
        let mut cut = Cut {
            keep: a,
            resume: c,
            new_lo: lo,
            new_hi: hi,
            left_rest: None,
            right_rest: None,
        };
        if a < c {
            let first_start = self.ranges[a].start;
            let last_end = self.ranges[c - 1].end;
            if first_start < lo {
                if cleared {
                    cut.new_lo = first_start;
                } else {
                    cut.left_rest = Some(first_start);
                }
            }
            if last_end > hi {
                if cleared {
                    cut.new_hi = last_end;
                } else {
                    cut.right_rest = Some(last_end);
                }
            }
        }
        // A cleared neighbour that touches a cleared new range joins it.
        if cleared {
            if cut.new_lo == lo && a > 0 && self.ranges[a - 1].known.is_cleared() && self.ranges[a
                - 1].end == lo - 1 {
                cut.new_lo = self.ranges[a - 1].start;
                cut.keep = a - 1;
            }
            if cut.new_hi == hi && c < n && self.ranges[c].known.is_cleared()
                && self.ranges[c].start - 1 == hi {
                cut.new_hi = self.ranges[c].end;
                cut.resume = c + 1;
            }
        }
        proof {
            assert(cut.fits(self.ranges@, versions, cleared, a as int, c as int));
            lemma_cut_bounded(self.ranges@, versions, cleared, a as int, c as int, cut);
            reveal(Cut::bounded);
        }
        cut
    }

    /// Sets every version of `versions.0..=versions.1` to the state `known`,
    /// whatever was known of them before, and leaves every other version as
    /// it was.
    ///
    /// A range of versions that starts after it ends is not accepted, and
    /// only the cleared state can be given to more than one version at once.
    pub fn insert_many(&mut self, versions: (i64, i64), known: KnownDbVersion)
        requires
            old(self).wf(),
            versions.0 <= versions.1,
            known@ == Known::Cleared || versions.0 == versions.1,
        ensures
            final(self).wf(),
            final(self)@ == inserted(old(self)@, versions, known@),
    {
        let cleared = known.is_cleared();
        let cut = self.cut_for(versions, cleared);
        proof {
            lemma_cut_result(self.ranges@, versions, known, cut);
        }
        replace_ranges(&mut self.ranges, versions, known, cut);
    }

    /// Sets version `v` to the state `known`, whatever was known of it
    /// before.
    pub fn insert(&mut self, v: i64, known: KnownDbVersion)
        requires
            old(self).wf(),
        ensures
            final(self).wf(),
            final(self)@ == old(self)@.insert(v as int, known@),
    {
        self.insert_many((v, v), known);
        assert(self@ =~= old(self)@.insert(v as int, known@));
    }

    /// The maximal ranges of versions inside `lo..=hi` of which nothing is
    /// known, in ascending order.
    pub fn gaps(&self, lo: i64, hi: i64) -> (out: Vec<(i64, i64)>)
        requires
            self.wf(),
        ensures
            separated(out@),
            forall|v: int| in_ranges(out@, v) <==> (lo <= v <= hi && !self@.contains_key(v)),
    {
        let mut out: Vec<(i64, i64)> = Vec::new();
        if lo > hi {
            return out;
        }
        let mut i: usize = self.position(lo);
        let mut next: i64 = lo;
        while i < self.ranges.len() && self.ranges[i].start <= hi
            invariant
                self.wf(),
                lo <= next <= hi,
                i <= self.ranges@.len(),
                forall|j: int| 0 <= j < i ==> (#[trigger] self.ranges@[j]).end < next,
                i < self.ranges@.len() ==> self.ranges@[i as int].end >= next,
                separated(out@),
                out@.len() > 0 ==> out@.last().1 + 1 < next,
                forall|v: int| in_ranges(out@, v) <==> (lo <= v < next && !self@.contains_key(v)),
            decreases self.ranges@.len() - i,
        {
            let start = self.ranges[i].start;
            let end = self.ranges[i].end;
            let ghost before = out@;
            if start > next {
                out.push((next, start - 1));
                proof {
                    assert forall|a: int, b: int| 0 <= a < b < out@.len() implies (
                    #[trigger] out@[a]).1 + 1 < (#[trigger] out@[b]).0 by {
                        if b == before.len() && a < b - 1 {
                            assert(before[a].1 + 1 < before[b - 1].0);
                            assert(before[b - 1].0 <= before[b - 1].1);
                        }
                    }
                }
            }
            proof {
                assert forall|v: int|
                    in_ranges(out@, v) <==> (lo <= v <= end && v < start && !self@.contains_key(
                        v,
                    ) || lo <= v < next && !self@.contains_key(v)) by {
                    if start > next {
                        lemma_in_ranges_push(before, (next, (start - 1) as i64), v);
                    }
                    if next <= v < start && ranges_cover(self.ranges@, v) {
                        let j = range_index(self.ranges@, v);
                        if j > i {
                            assert(self.ranges@[i as int].end < self.ranges@[j].start);
                        }
                    }
                }
                assert forall|v: int| start <= v <= end implies self@.contains_key(v) by {
                    lemma_range_found(self.ranges@, i as int, v);
                }
            }
            if end >= hi {
                return out;
            }
            next = end + 1;
            proof {
                if i + 1 < self.ranges@.len() {
                    assert(self.ranges@[i as int].end < self.ranges@[i + 1].start);
                }
                assert(self.ranges@[i as int].start <= self.ranges@[i as int].end);
            }
            i = i + 1;
        }
        let ghost before = out@;
        out.push((next, hi));
        proof {
            assert forall|a: int, b: int| 0 <= a < b < out@.len() implies (#[trigger] out@[a]).1
                + 1 < (#[trigger] out@[b]).0 by {
                if b == before.len() && a < b - 1 {
                    assert(before[a].1 + 1 < before[b - 1].0);
                    assert(before[b - 1].0 <= before[b - 1].1);
                }
            }
            assert forall|v: int| in_ranges(out@, v) <==> (lo <= v <= hi && !self@.contains_key(
                v,
            )) by {
                lemma_in_ranges_push(before, (next, hi), v);
                if next <= v <= hi && ranges_cover(self.ranges@, v) {
                    let j = range_index(self.ranges@, v);
                    if j > i {
                        assert(self.ranges@[i as int].end < self.ranges@[j].start);
                        assert(self.ranges@[i as int].start <= self.ranges@[i as int].end);
                    }
                }
            }
        }
        out
    }

    /// The ranges of versions that are missing below the highest version
    /// known: what a sync has to ask a peer for. Versions count from 1.
    pub fn need(&self) -> (out: Vec<(i64, i64)>)
        requires
            self.wf(),
        ensures
            separated(out@),
            forall|v: int| in_ranges(out@, v) <==> missing(self@, v),
    {
        match self.last() {
            Some(m) => {
                let out = self.gaps(1, m);
                proof {
                    assert forall|v: int| in_ranges(out@, v) <==> missing(self@, v) by {
                        if in_ranges(out@, v) {
                            assert(v < m && self@.contains_key(m as int));
                        }
                    }
                }
                out
            },
            None => {
                let out: Vec<(i64, i64)> = Vec::new();
                assert(forall|v: int| !in_ranges(out@, v));
                out
            },
        }
    }

    /// The applied versions by the `db_version` each was applied under. Where
    /// several versions claim one `db_version`, the highest of them is given.
    pub fn current_versions(&self) -> (m: BTreeMap<i64, i64>)
        requires
            self.wf(),
        ensures
            snapshot_of(self@, m@),
    {
        let mut m: BTreeMap<i64, i64> = BTreeMap::new();
        let mut i: usize = 0;
        while i < self.ranges.len()
            invariant
                self.wf(),
                i <= self.ranges@.len(),
                forall|d: i64|
                    m@.contains_key(d) <==> exists|v: int|
                        applied_as(self@, v, d) && ranges_index_below(self.ranges@, v, i as int),
                forall|d: i64|
                    m@.contains_key(d) ==> applied_as(self@, m@[d] as int, d)
                        && ranges_index_below(self.ranges@, m@[d] as int, i as int) && forall|
                        v: int,
                    |
                        applied_as(self@, v, d) && ranges_index_below(self.ranges@, v, i as int)
                            ==> v <= m@[d],
            decreases self.ranges@.len() - i,
        {
            let ghost before = m@;
            let r = &self.ranges[i];
            let ghost start = r.start;
            proof {
                assert(r.start <= r.end);
                lemma_range_found(self.ranges@, i as int, start as int);
                assert forall|v: int| ranges_index_below(self.ranges@, v, i + 1) implies (
                ranges_index_below(self.ranges@, v, i as int) || self.ranges@[i as int].covers(
                    v,
                )) by {
                    let j = range_index(self.ranges@, v);
                    if j == i {
                    }
                }
                assert forall|v: int| self.ranges@[i as int].covers(v) implies self@[v]
                    == r.known@ && ranges_index_below(self.ranges@, v, i + 1) && self@.contains_key(
                    v,
                ) by {
                    lemma_range_found(self.ranges@, i as int, v);
                }
                assert forall|v: int| ranges_index_below(self.ranges@, v, i as int) implies v
                    < start && ranges_index_below(self.ranges@, v, i + 1) by {
                    let j = range_index(self.ranges@, v);
                    assert(self.ranges@[j].end < self.ranges@[i as int].start);
                }
            }
            match r.known {
                KnownDbVersion::Current { db_version, .. } => {
                    m.insert(db_version, r.start);
                    proof {
                        assert(applied_as(self@, start as int, db_version));
                        assert forall|d: i64| m@.contains_key(d) implies exists|v: int|
                            applied_as(self@, v, d) && ranges_index_below(
                                self.ranges@,
                                v,
                                i + 1,
                            ) by {
                            if d == db_version {
                                assert(applied_as(self@, start as int, d) && ranges_index_below(
                                    self.ranges@,
                                    start as int,
                                    i + 1,
                                ));
                            } else {
                                assert(before.contains_key(d));
                                let v = choose|v: int|
                                    applied_as(self@, v, d) && ranges_index_below(
                                        self.ranges@,
                                        v,
                                        i as int,
                                    );
                                assert(ranges_index_below(self.ranges@, v, i + 1));
                            }
                        }
                        assert forall|d: i64|
                            (exists|v: int|
                                applied_as(self@, v, d) && ranges_index_below(
                                    self.ranges@,
                                    v,
                                    i + 1,
                                )) implies m@.contains_key(d) by {
                            let v = choose|v: int|
                                applied_as(self@, v, d) && ranges_index_below(
                                    self.ranges@,
                                    v,
                                    i + 1,
                                );
                            if !self.ranges@[i as int].covers(v) {
                                assert(ranges_index_below(self.ranges@, v, i as int));
                                assert(before.contains_key(d));
                            }
                        }
                    }
                },
                _ => {
                    proof {
                        assert forall|d: i64| m@.contains_key(d) implies exists|v: int|
                            applied_as(self@, v, d) && ranges_index_below(
                                self.ranges@,
                                v,
                                i + 1,
                            ) by {
                            let v = choose|v: int|
                                applied_as(self@, v, d) && ranges_index_below(
                                    self.ranges@,
                                    v,
                                    i as int,
                                );
                            assert(ranges_index_below(self.ranges@, v, i + 1));
                        }
                        assert forall|d: i64|
                            (exists|v: int|
                                applied_as(self@, v, d) && ranges_index_below(
                                    self.ranges@,
                                    v,
                                    i + 1,
                                )) implies m@.contains_key(d) by {
                            let v = choose|v: int|
                                applied_as(self@, v, d) && ranges_index_below(
                                    self.ranges@,
                                    v,
                                    i + 1,
                                );
                            if !self.ranges@[i as int].covers(v) {
                                assert(ranges_index_below(self.ranges@, v, i as int));
                            }
                        }
                    }
                },
            }
            i = i + 1;
        }
        proof {
            assert forall|v: int| self@.contains_key(v) implies ranges_index_below(
                self.ranges@,
                v,
                i as int,
            ) by {}
        }
        m
    }

    /// Whether anything is known of version `v`.
    pub fn contains_version(&self, v: i64) -> (b: bool)
        requires
            self.wf(),
        ensures
            b == self@.contains_key(v as int),
    {
        self.get(v).is_some()
    }
}

} // verus!
