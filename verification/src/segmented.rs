//! Segment planning for multi-connection downloads: a file of known size is
//! split into byte ranges.

use vstd::prelude::*;

verus! {

/// How many ranges `total` bytes are split into: as many as are asked for,
/// and no more than there are bytes.
pub open spec fn segment_count(total: nat, max: nat) -> nat {
    if max < total {
        max
    } else {
        total
    }
}

/// The first byte of range `i` of `count`: every range before it has
/// `total / count` bytes, and the first `total % count` have one more.
pub open spec fn segment_start(total: nat, count: nat, i: nat) -> nat {
    i * (total / count) + if i < total % count {
        i
    } else {
        total % count
    }
}

/// Range `i`, with its first and its last byte.
pub open spec fn segment_range(total: nat, count: nat, i: nat) -> (nat, nat) {
    (segment_start(total, count, i), (segment_start(total, count, i + 1) - 1) as nat)
}

pub open spec fn ranges_view(v: Seq<(u64, u64)>) -> Seq<(nat, nat)> {
    Seq::new(v.len(), |i: int| (v[i].0 as nat, v[i].1 as nat))
}

/// The ranges that `total` bytes are split into.
pub open spec fn planned(total: nat, max: nat) -> Seq<(nat, nat)> {
    let count = segment_count(total, max);
    Seq::new(count, |i: int| segment_range(total, count, i as nat))
}

/// The step from one range to the next: its length.
pub proof fn lemma_segment_step(total: nat, count: nat, i: nat)
    requires
        0 < count <= total,
    ensures
        segment_start(total, count, 0) == 0,
        segment_start(total, count, count) == total,
        segment_start(total, count, i + 1) == segment_start(total, count, i) + total / count + (
        if i < total % count {
            1int
        } else {
            0int
        }),
        total / count >= 1,
{
    vstd::arithmetic::div_mod::lemma_fundamental_div_mod(total as int, count as int);
    let base = total / count;
    assert((i + 1) * base == i * base + base) by (nonlinear_arith);
    assert(total / count >= 1) by (nonlinear_arith)
        requires
            0 < count <= total,
    ;
    assert(0 * base == 0);
}

/// Ranges do not go back: a later one starts later.
pub proof fn lemma_segment_order(total: nat, count: nat, i: nat, j: nat)
    requires
        0 < count <= total,
        i <= j,
    ensures
        segment_start(total, count, i) + (j - i) <= segment_start(total, count, j),
    decreases j - i,
{
    if i < j {
        lemma_segment_order(total, count, i, (j - 1) as nat);
        lemma_segment_step(total, count, (j - 1) as nat);
    }
}

/// The plan covers `[0, total)` exactly once: every byte lies in one range
/// and in no other.
pub proof fn plan_covers_once(total: nat, max: nat, byte: nat)
    requires
        byte < total,
        max > 0,
    ensures
        exists|i: int|
            0 <= i < planned(total, max).len() && (#[trigger] planned(total, max)[i]).0 <= byte
                <= planned(total, max)[i].1,
        forall|i: int, j: int|
            0 <= i < planned(total, max).len() && 0 <= j < planned(total, max).len() && (
            #[trigger] planned(total, max)[i]).0 <= byte <= planned(total, max)[i].1 && (
            #[trigger] planned(total, max)[j]).0 <= byte <= planned(total, max)[j].1 ==> i == j,
{
    let count = segment_count(total, max);
    let plan = planned(total, max);
    lemma_segment_step(total, count, 0);
    let i = lemma_segment_of(total, count, byte, count);
    assert(plan[i as int].0 <= byte <= plan[i as int].1);
    assert forall|a: int, b: int|
        0 <= a < b < plan.len() && (#[trigger] plan[a]).0 <= byte <= plan[a].1 && (
        #[trigger] plan[b]).0 <= byte <= plan[b].1 implies false by {
        lemma_segment_order(total, count, (a + 1) as nat, b as nat);
        lemma_segment_order(total, count, a as nat, (a + 1) as nat);
    }
}

/// The range among the first `upto` that holds `byte`.
proof fn lemma_segment_of(total: nat, count: nat, byte: nat, upto: nat) -> (i: nat)
    requires
        0 < count <= total,
        byte < segment_start(total, count, upto),
    ensures
        i < upto,
        segment_start(total, count, i) <= byte < segment_start(total, count, i + 1),
    decreases upto,
{
    lemma_segment_step(total, count, 0);
    let last = (upto - 1) as nat;
    if segment_start(total, count, last) <= byte {
        last
    } else {
        lemma_segment_of(total, count, byte, last)
    }
}

/// The plan is in order and without gaps: it begins at the first byte, each
/// range begins behind the one before it, and the last one ends at the last
/// byte; no range is empty, and no two differ in length by more than a byte,
/// the longer ones coming first.
pub proof fn plan_is_contiguous(total: nat, max: nat)
    requires
        total > 0,
        max > 0,
    ensures
        planned(total, max).len() == segment_count(total, max),
        planned(total, max).len() <= total,
        planned(total, max)[0].0 == 0,
        planned(total, max).last().1 == total - 1,
        forall|i: int|
            0 < i < planned(total, max).len() ==> (#[trigger] planned(total, max)[i]).0
                == planned(total, max)[i - 1].1 + 1,
        forall|i: int|
            0 <= i < planned(total, max).len() ==> (#[trigger] planned(total, max)[i]).1
                - planned(total, max)[i].0 + 1 == total / segment_count(total, max) + (if i < total
                % segment_count(total, max) {
                1int
            } else {
                0int
            }),
        total / segment_count(total, max) >= 1,
{
    let count = segment_count(total, max);
    lemma_segment_step(total, count, (count - 1) as nat);
    assert forall|i: int| 0 < i < planned(total, max).len() implies (#[trigger] planned(
        total,
        max,
    )[i]).0 == planned(total, max)[i - 1].1 + 1 by {
        lemma_segment_step(total, count, (i - 1) as nat);
    }
    assert forall|i: int| 0 <= i < planned(total, max).len() implies (#[trigger] planned(
        total,
        max,
    )[i]).1 - planned(total, max)[i].0 + 1 == total / count + (if i < total % count {
        1int
    } else {
        0int
    }) by {
        lemma_segment_step(total, count, i as nat);
    }
}

/// Every planned range lies within the file.
pub proof fn lemma_plan_bounds(total: nat, max: nat)
    requires
        max > 0,
    ensures
        forall|i: int|
            0 <= i < planned(total, max).len() ==> (#[trigger] planned(total, max)[i]).0
                <= planned(total, max)[i].1 < total,
{
    let count = segment_count(total, max);
    assert forall|i: int| 0 <= i < planned(total, max).len() implies (#[trigger] planned(
        total,
        max,
    )[i]).0 <= planned(total, max)[i].1 < total by {
        lemma_segment_order(total, count, (i + 1) as nat, count);
        lemma_segment_step(total, count, i as nat);
    }
}

/// The bytes in a list of ranges, counted.
pub open spec fn covered(ranges: Seq<(nat, nat)>) -> int
    decreases ranges.len(),
{
    if ranges.len() == 0 {
        0
    } else {
        covered(ranges.drop_last()) + (ranges.last().1 - ranges.last().0 + 1)
    }
}

/// The lengths of the planned ranges add up to the size of the file.
pub proof fn plan_adds_up(total: nat, max: nat)
    requires
        max > 0,
    ensures
        covered(planned(total, max)) == total,
{
    let count = segment_count(total, max);
    if total > 0 {
        lemma_covered(total, max, count);
        lemma_segment_step(total, count, 0);
        assert(planned(total, max).take(count as int) =~= planned(total, max));
    }
}

proof fn lemma_covered(total: nat, max: nat, n: nat)
    requires
        0 < total,
        0 < max,
        n <= segment_count(total, max),
    ensures
        covered(planned(total, max).take(n as int)) == segment_start(
            total,
            segment_count(total, max),
            n,
        ),
    decreases n,
{
    let count = segment_count(total, max);
    lemma_segment_step(total, count, 0);
    if n > 0 {
        lemma_covered(total, max, (n - 1) as nat);
        lemma_segment_step(total, count, (n - 1) as nat);
        assert(planned(total, max).take(n as int).drop_last() =~= planned(total, max).take(n - 1));
    }
}

/// The bytes of `file` in a list of ranges, one range behind the other.
pub open spec fn assembled(file: Seq<u8>, ranges: Seq<(nat, nat)>) -> Seq<u8>
    decreases ranges.len(),
{
    if ranges.len() == 0 {
        Seq::empty()
    } else {
        assembled(file, ranges.drop_last()) + file.subrange(
            ranges.last().0 as int,
            ranges.last().1 as int + 1,
        )
    }
}

/// The parts of a file, downloaded by the plan and put together in order, are
/// the file.
pub proof fn parts_make_the_file(file: Seq<u8>, max: nat)
    requires
        max > 0,
    ensures
        assembled(file, planned(file.len(), max)) == file,
{
    let count = segment_count(file.len(), max);
    if file.len() > 0 {
        lemma_assembled(file, max, count);
        lemma_segment_step(file.len(), count, 0);
        assert(planned(file.len(), max).take(count as int) =~= planned(file.len(), max));
        assert(file.take(file.len() as int) =~= file);
    } else {
        assert(planned(file.len(), max) =~= Seq::empty());
        assert(file =~= Seq::empty());
    }
}

proof fn lemma_assembled(file: Seq<u8>, max: nat, n: nat)
    requires
        0 < file.len(),
        0 < max,
        n <= segment_count(file.len(), max),
    ensures
        assembled(file, planned(file.len(), max).take(n as int)) == file.take(
            segment_start(file.len(), segment_count(file.len(), max), n) as int,
        ),
    decreases n,
{
    let total = file.len();
    let count = segment_count(total, max);
    let plan = planned(total, max);
    lemma_segment_step(total, count, 0);
    if n == 0 {
        assert(plan.take(0) =~= Seq::empty());
        assert(file.take(0) =~= Seq::empty());
    } else {
        let i = (n - 1) as nat;
        lemma_assembled(file, max, i);
        lemma_segment_step(total, count, i);
        lemma_segment_order(total, count, n, count);
        assert(plan.take(n as int).drop_last() =~= plan.take(i as int));
        let a = segment_start(total, count, i) as int;
        let b = segment_start(total, count, n) as int;
        assert(file.take(a) + file.subrange(a, b) =~= file.take(b));
    }
}

/// Split `total_size` bytes into up to `max_segments` contiguous
/// `(start, end)` ranges (both inclusive).
///
/// * Returns an empty vec for `total_size == 0` or `max_segments == 0`.
/// * Never returns more ranges than there are bytes.
/// * Ranges cover `[0, total_size)` exactly once, in order; the first
///   `remainder` segments get one extra byte.
pub fn plan_segments(total_size: u64, max_segments: usize) -> (r: Vec<(u64, u64)>)
    ensures
        ranges_view(r@) == planned(total_size as nat, max_segments as nat),
{
    let mut ranges: Vec<(u64, u64)> = Vec::new();
    if total_size == 0 || max_segments == 0 {
        assert(ranges_view(ranges@) =~= planned(total_size as nat, max_segments as nat));
        return ranges;
    }
    let count: u64 = if (max_segments as u64) < total_size {
        max_segments as u64
    } else {
        total_size
    };
    let base: u64 = total_size / count;
    let remainder: u64 = total_size % count;
    let ghost t = total_size as nat;
    let ghost n = count as nat;
    let mut start: u64 = 0;
    let mut i: u64 = 0;
    proof {
        lemma_segment_step(t, n, 0);
    }
    while i < count
        invariant
            t == total_size,
            n == count,
            0 < n <= t,
            base == t / n,
            remainder == t % n,
            i <= count,
            start == segment_start(t, n, i as nat),
            ranges@.len() == i,
            forall|j: int|
                0 <= j < i ==> ranges_view(ranges@)[j] == #[trigger] segment_range(t, n, j as nat),
        decreases count - i,
    {
        proof {
            lemma_segment_step(t, n, i as nat);
            lemma_segment_order(t, n, (i + 1) as nat, n);
        }
        let extra: u64 = if i < remainder {
            1
        } else {
            0
        };
        let len: u64 = base + extra;
        let end: u64 = start + (len - 1);
        let ghost had = ranges@;
        ranges.push((start, end));
        assert(forall|j: int| 0 <= j < i ==> ranges_view(ranges@)[j] == ranges_view(had)[j]);
        if i + 1 < count {
            proof {
                lemma_segment_order(t, n, (i + 1) as nat, n);
            }
        }
        start = end + 1;
        i = i + 1;
    }
    assert(ranges_view(ranges@) =~= planned(t, max_segments as nat));
    ranges
}

} // verus!
