//! Address ranges of free memory, kept as `(start, size)` pairs, and the
//! facts about them that the free-list allocators rely on.
use vstd::prelude::*;

verus! {

/// Bytes taken by a free-list link kept inside a free block: one pointer.
pub const LINK_SIZE: usize = 8;

/// Bytes taken by a free-list node kept inside a free region: a size word and
/// a link word.
pub const NODE_SIZE: usize = 16;

/// One past the last byte of the region `r`.
pub open spec fn end_of(r: (usize, usize)) -> int {
    r.0 + r.1
}

/// `x` lies inside the region `r`.
pub open spec fn in_region(r: (usize, usize), x: int) -> bool {
    r.0 <= x < end_of(r)
}

/// A region that can hold a free-list node at its start.
pub open spec fn region_ok(r: (usize, usize)) -> bool {
    &&& r.0 % NODE_SIZE == 0
    &&& r.1 >= NODE_SIZE
    &&& end_of(r) <= usize::MAX
}

/// Regions in increasing address order that neither overlap nor touch.
pub open spec fn regions_wf(s: Seq<(usize, usize)>) -> bool {
    &&& forall|i: int| 0 <= i < s.len() ==> region_ok(#[trigger] s[i])
    &&& forall|i: int, j: int| 0 <= i < j < s.len() ==> end_of(#[trigger] s[i]) < #[trigger] s[j].0
}

/// `x` is a byte of one of the regions of `s`.
pub open spec fn covers(s: Seq<(usize, usize)>, x: int) -> bool {
    exists|i: int| 0 <= i < s.len() && in_region(#[trigger] s[i], x)
}

/// The sum of the sizes of the regions of `s`.
pub open spec fn total_size(s: Seq<(usize, usize)>) -> int
    decreases s.len(),
{
    if s.len() == 0 {
        0
    } else {
        total_size(s.drop_last()) + s.last().1
    }
}

/// The region `[addr, addr + size)` shares no byte with any region of `s`.
pub open spec fn disjoint_from(s: Seq<(usize, usize)>, addr: int, size: int) -> bool {
    forall|i: int| 0 <= i < s.len() ==> end_of(#[trigger] s[i]) <= addr || addr + size <= s[i].0
}

/// For well-formed regions, a non-empty range shares no byte with them
/// exactly when none of its bytes is covered.
pub proof fn lemma_disjoint_iff_uncovered(s: Seq<(usize, usize)>, addr: int, size: int)
    requires
        regions_wf(s),
        size > 0,
    ensures
        disjoint_from(s, addr, size) <==> (forall|x: int| addr <= x < addr + size ==> !#[trigger] covers(s, x)),
{
    if disjoint_from(s, addr, size) {
        assert forall|x: int| addr <= x < addr + size implies !#[trigger] covers(s, x) by {
            if covers(s, x) {
                let i = choose|i: int| 0 <= i < s.len() && in_region(#[trigger] s[i], x);
            }
        }
    }
    if forall|x: int| addr <= x < addr + size ==> !#[trigger] covers(s, x) {
        assert forall|i: int| 0 <= i < s.len() implies end_of(#[trigger] s[i]) <= addr || addr + size <= s[i].0 by {
            let x = if addr >= s[i].0 { addr } else { s[i].0 as int };
            if !(end_of(s[i]) <= addr || addr + size <= s[i].0) {
                assert(in_region(s[i], x));
                assert(covers(s, x));
            }
        }
    }
}

/// The total size of a concatenation is the sum of the totals.
pub proof fn lemma_total_concat(a: Seq<(usize, usize)>, b: Seq<(usize, usize)>)
    ensures
        total_size(a + b) == total_size(a) + total_size(b),
    decreases b.len(),
{
    if b.len() == 0 {
        assert(a + b =~= a);
    } else {
        lemma_total_concat(a, b.drop_last());
        assert((a + b).drop_last() =~= a + b.drop_last());
    }
}

/// The total of a one-element sequence.
pub proof fn lemma_total_single(r: (usize, usize))
    ensures
        total_size(seq![r]) == r.1,
{
    assert(seq![r].drop_last() =~= Seq::<(usize, usize)>::empty());
    assert(total_size(Seq::<(usize, usize)>::empty()) == 0);
    assert(seq![r].last() == r);
}

/// Splitting a sequence at `i` around its element `i`.
pub proof fn lemma_total_split(s: Seq<(usize, usize)>, i: int)
    requires
        0 <= i < s.len(),
    ensures
        total_size(s) == total_size(s.take(i)) + s[i].1 + total_size(s.skip(i + 1)),
{
    assert(s =~= s.take(i) + seq![s[i]] + s.skip(i + 1));
    lemma_total_concat(s.take(i) + seq![s[i]], s.skip(i + 1));
    lemma_total_concat(s.take(i), seq![s[i]]);
    lemma_total_single(s[i]);
}

/// Removing a region subtracts its size from the total.
pub proof fn lemma_total_remove(s: Seq<(usize, usize)>, i: int)
    requires
        0 <= i < s.len(),
    ensures
        total_size(s.remove(i)) == total_size(s) - s[i].1,
{
    lemma_total_split(s, i);
    assert(s.remove(i) =~= s.take(i) + s.skip(i + 1));
    lemma_total_concat(s.take(i), s.skip(i + 1));
}

/// Well-formed regions fit between the first start and the last end, so their
/// total is at most that span.
pub proof fn lemma_total_bounded(s: Seq<(usize, usize)>)
    requires
        regions_wf(s),
        s.len() > 0,
    ensures
        total_size(s) <= end_of(s.last()) - s[0].0,
    decreases s.len(),
{
    let t = s.drop_last();
    if s.len() > 1 {
        assert(regions_wf(t));
        lemma_total_bounded(t);
        assert(t.last() == s[s.len() - 2]);
        assert(t[0] == s[0]);
        assert(end_of(s[s.len() - 2]) < s.last().0);
    } else {
        assert(t =~= Seq::<(usize, usize)>::empty());
        assert(total_size(t) == 0);
    }
}

/// Prefix totals grow by one element at a time.
pub proof fn lemma_total_take_step(s: Seq<(usize, usize)>, i: int)
    requires
        0 <= i < s.len(),
    ensures
        total_size(s.take(i + 1)) == total_size(s.take(i)) + s[i].1,
{
    assert(s.take(i + 1).drop_last() =~= s.take(i));
}

/// `s` with its regions `lo .. hi` replaced by the single region `r`.
pub open spec fn splice(s: Seq<(usize, usize)>, lo: int, hi: int, r: (usize, usize)) -> Seq<(usize, usize)> {
    s.take(lo) + seq![r] + s.skip(hi)
}

/// Replacing a run of regions by one region that lies strictly between its
/// neighbours keeps the regions well formed; what is covered afterwards is
/// that region and the regions kept; the total changes accordingly.
#[verifier::spinoff_prover]
pub proof fn lemma_splice(s: Seq<(usize, usize)>, lo: int, hi: int, r: (usize, usize))
    requires
        0 <= lo <= hi <= s.len(),
        regions_wf(s),
        region_ok(r),
        forall|j: int| 0 <= j < lo ==> end_of(#[trigger] s[j]) < r.0,
        forall|j: int| hi <= j < s.len() ==> end_of(r) < #[trigger] s[j].0,
    ensures
        regions_wf(splice(s, lo, hi, r)),
        splice(s, lo, hi, r).len() == s.len() - (hi - lo) + 1,
        forall|x: int|
            #![trigger covers(splice(s, lo, hi, r), x)]
            covers(splice(s, lo, hi, r), x) <==> (in_region(r, x) || exists|j: int|
                (0 <= j < lo || hi <= j < s.len()) && in_region(#[trigger] s[j], x)),
        total_size(splice(s, lo, hi, r)) == total_size(s.take(lo)) + r.1 + total_size(s.skip(hi)),
{
    let t = splice(s, lo, hi, r);
    assert forall|a: int| 0 <= a < t.len() implies #[trigger] t[a] == (if a < lo {
        s[a]
    } else if a == lo {
        r
    } else {
        s[a - lo - 1 + hi]
    }) by {}
    assert forall|a: int, b: int| 0 <= a < b < t.len() implies end_of(#[trigger] t[a]) < #[trigger] t[b].0 by {
        if b < lo {
        } else if b == lo {
        } else if a < lo {
            assert(end_of(s[a]) < r.0);
            assert(end_of(r) < s[b - lo - 1 + hi].0);
        } else if a == lo {
        } else {
        }
    }
    assert forall|x: int|
        covers(t, x) <==> (in_region(r, x) || exists|j: int|
            (0 <= j < lo || hi <= j < s.len()) && in_region(#[trigger] s[j], x)) by {
        if covers(t, x) {
            let a = choose|a: int| 0 <= a < t.len() && in_region(#[trigger] t[a], x);
            if a < lo {
                assert(in_region(s[a], x));
            } else if a > lo {
                assert(in_region(s[a - lo - 1 + hi], x));
            }
        }
        if in_region(r, x) {
            assert(in_region(t[lo], x));
        }
        if exists|j: int| (0 <= j < lo || hi <= j < s.len()) && in_region(#[trigger] s[j], x) {
            let j = choose|j: int| (0 <= j < lo || hi <= j < s.len()) && in_region(#[trigger] s[j], x);
            if j < lo {
                assert(in_region(t[j], x));
            } else {
                assert(in_region(t[j - hi + lo + 1], x));
            }
        }
    }
    lemma_total_concat(s.take(lo) + seq![r], s.skip(hi));
    lemma_total_concat(s.take(lo), seq![r]);
    lemma_total_single(r);
}

/// The total of `s` split into a prefix, a middle run and a suffix.
pub proof fn lemma_total_three(s: Seq<(usize, usize)>, lo: int, hi: int)
    requires
        0 <= lo <= hi <= s.len(),
    ensures
        total_size(s) == total_size(s.take(lo)) + total_size(s.subrange(lo, hi)) + total_size(s.skip(hi)),
{
    assert(s =~= s.take(lo) + s.subrange(lo, hi) + s.skip(hi));
    lemma_total_concat(s.take(lo) + s.subrange(lo, hi), s.skip(hi));
    lemma_total_concat(s.take(lo), s.subrange(lo, hi));
}

/// The total of a run of one or two regions.
pub proof fn lemma_total_short(s: Seq<(usize, usize)>)
    requires
        s.len() <= 2,
    ensures
        s.len() == 0 ==> total_size(s) == 0,
        s.len() == 1 ==> total_size(s) == s[0].1,
        s.len() == 2 ==> total_size(s) == s[0].1 + s[1].1,
{
    if s.len() == 1 {
        assert(s =~= seq![s[0]]);
        lemma_total_single(s[0]);
    } else if s.len() == 2 {
        assert(s =~= seq![s[0]] + seq![s[1]]);
        lemma_total_concat(seq![s[0]], seq![s[1]]);
        lemma_total_single(s[0]);
        lemma_total_single(s[1]);
    }
}

/// Totals are never negative.
pub proof fn lemma_total_nonneg(s: Seq<(usize, usize)>)
    ensures
        total_size(s) >= 0,
    decreases s.len(),
{
    if s.len() > 0 {
        lemma_total_nonneg(s.drop_last());
    }
}

/// A prefix of well-formed regions totals no more than the whole, which fits
/// in a machine word.
pub proof fn lemma_total_prefix_bounded(s: Seq<(usize, usize)>, i: int)
    requires
        regions_wf(s),
        0 <= i <= s.len(),
    ensures
        0 <= total_size(s.take(i)) <= total_size(s) <= usize::MAX,
{
    assert(s =~= s.take(i) + s.skip(i));
    lemma_total_concat(s.take(i), s.skip(i));
    lemma_total_nonneg(s.take(i));
    lemma_total_nonneg(s.skip(i));
    if s.len() > 0 {
        lemma_total_bounded(s);
    } else {
        assert(total_size(s) == 0);
    }
}

/// Well-formed regions are determined by the bytes they cover: two sorted
/// lists of regions that neither overlap nor touch and that cover the same
/// bytes are the same list.
#[verifier::spinoff_prover]
pub proof fn lemma_regions_determined_by_coverage(s: Seq<(usize, usize)>, t: Seq<(usize, usize)>)
    requires
        regions_wf(s),
        regions_wf(t),
        forall|x: int| covers(s, x) <==> covers(t, x),
    ensures
        s == t,
    decreases s.len() + t.len(),
{
    if s.len() == 0 || t.len() == 0 {
        if s.len() > 0 {
            assert(covers(s, s[0].0 as int));
        }
        if t.len() > 0 {
            assert(covers(t, t[0].0 as int));
        }
        assert(s =~= t);
    } else {
        lemma_first_region_agrees(s, t);
        lemma_first_region_agrees(t, s);
        let s1 = s.drop_first();
        let t1 = t.drop_first();
        assert(regions_wf(s1)) by {
            assert forall|a: int, b: int| 0 <= a < b < s1.len() implies end_of(#[trigger] s1[a]) < #[trigger] s1[b].0 by {
                assert(s1[a] == s[a + 1] && s1[b] == s[b + 1]);
            }
        }
        assert(regions_wf(t1)) by {
            assert forall|a: int, b: int| 0 <= a < b < t1.len() implies end_of(#[trigger] t1[a]) < #[trigger] t1[b].0 by {
                assert(t1[a] == t[a + 1] && t1[b] == t[b + 1]);
            }
        }
        assert forall|x: int| covers(s1, x) <==> covers(t1, x) by {
            lemma_covers_rest(s, x);
            lemma_covers_rest(t, x);
        }
        lemma_regions_determined_by_coverage(s1, t1);
        assert(s =~= seq![s[0]] + s1);
        assert(t =~= seq![t[0]] + t1);
    }
}

/// The first region of `s` starts no later than, and ends no earlier than,
/// the first region of `t` when both cover the same bytes.
proof fn lemma_first_region_agrees(s: Seq<(usize, usize)>, t: Seq<(usize, usize)>)
    requires
        regions_wf(s),
        regions_wf(t),
        s.len() > 0,
        t.len() > 0,
        forall|x: int| covers(s, x) <==> covers(t, x),
    ensures
        s[0].0 <= t[0].0,
        s[0].0 == t[0].0 ==> end_of(t[0]) <= end_of(s[0]),
{
    // the first byte of `t` lies in some region of `s`, which starts no later
    assert(covers(t, t[0].0 as int)) by {
        assert(in_region(t[0], t[0].0 as int));
    }
    let i = choose|i: int| 0 <= i < s.len() && in_region(#[trigger] s[i], t[0].0 as int);
    if i > 0 {
        assert(end_of(s[0]) < s[i].0);
    }
    if s[0].0 == t[0].0 && end_of(s[0]) < end_of(t[0]) {
        // the byte just past the first region of `s` is covered by `t`
        let e = end_of(s[0]);
        assert(in_region(t[0], e));
        assert(covers(t, e));
        let j = choose|j: int| 0 <= j < s.len() && in_region(#[trigger] s[j], e);
        if j > 0 {
            assert(end_of(s[0]) < s[j].0);
        }
    }
}

/// Without its first region, `s` covers what it covered outside that region.
proof fn lemma_covers_rest(s: Seq<(usize, usize)>, x: int)
    requires
        regions_wf(s),
        s.len() > 0,
    ensures
        covers(s.drop_first(), x) <==> (covers(s, x) && !in_region(s[0], x)),
{
    let r = s.drop_first();
    if covers(r, x) {
        let a = choose|a: int| 0 <= a < r.len() && in_region(#[trigger] r[a], x);
        assert(r[a] == s[a + 1]);
        assert(end_of(s[0]) < s[a + 1].0);
        assert(in_region(s[a + 1], x));
    }
    if covers(s, x) && !in_region(s[0], x) {
        let a = choose|a: int| 0 <= a < s.len() && in_region(#[trigger] s[a], x);
        assert(r[a - 1] == s[a]);
    }
}

} // verus!
