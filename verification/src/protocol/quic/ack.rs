//! Acknowledgements: the received packet numbers of a space, and the ranges of an ACK
//! frame.

use super::frame::{descends, ranges_readable};
use super::recovery::{capped, minus};
use vstd::prelude::*;

verus! {

/// Packet numbers kept for ACK frames. Older ones are forgotten.
pub const MAX_ACK_QUEUE: usize = 256;

/// Ranges in an ACK frame.
pub const MAX_ACK_RANGES: usize = 4;

/// Strictly ascending.
pub open spec fn ascending(q: Seq<u64>) -> bool {
    forall|i: int, j: int| 0 <= i < j < q.len() ==> q[i] < q[j]
}

/// An ascending list with one more number in it.
pub open spec fn with_number(q: Seq<u64>, pn: u64) -> Seq<u64>
    decreases q.len(),
{
    if q.len() == 0 || q.last() < pn {
        q.push(pn)
    } else if q.last() == pn {
        q
    } else {
        with_number(q.drop_last(), pn).push(q.last())
    }
}

/// The largest numbers of an ascending list, as many as are kept.
pub open spec fn newest(q: Seq<u64>) -> Seq<u64> {
    if q.len() > MAX_ACK_QUEUE {
        q.skip(q.len() - MAX_ACK_QUEUE)
    } else {
        q
    }
}

/// Inserting keeps the order, adds the number and nothing else.
pub proof fn lemma_with_number(q: Seq<u64>, pn: u64)
    requires
        ascending(q),
    ensures
        ascending(with_number(q, pn)),
        forall|p: u64| #[trigger]
            with_number(q, pn).contains(p) <==> q.contains(p) || p == pn,
        q.len() <= with_number(q, pn).len() <= q.len() + 1,
    decreases q.len(),
{
    let r = with_number(q, pn);
    if q.len() == 0 || q.last() < pn {
        assert(r[q.len() as int] == pn);
        assert forall|p: u64| r.contains(p) <==> q.contains(p) || p == pn by {
            if q.contains(p) {
                let i = q.index_of(p);
                assert(r[i] == p);
            }
        }
    } else if q.last() == pn {
        assert(q[q.len() - 1] == pn);
    } else {
        let d = q.drop_last();
        lemma_with_number(d, pn);
        let s = with_number(d, pn);
        assert forall|i: int, j: int| 0 <= i < j < r.len() implies r[i] < r[j] by {
            if j == s.len() {
                assert(s.contains(s[i]));
                if d.contains(s[i]) {
                    let k = d.index_of(s[i]);
                    assert(q[k] == s[i]);
                }
            }
        }
        assert forall|p: u64| r.contains(p) <==> q.contains(p) || p == pn by {
            if r.contains(p) {
                let i = r.index_of(p);
                if i < s.len() {
                    assert(s[i] == p);
                    assert(s.contains(p));
                    if d.contains(p) {
                        assert(q[d.index_of(p)] == p);
                    }
                } else {
                    assert(q[q.len() - 1] == p);
                }
            }
            if q.contains(p) {
                let i = q.index_of(p);
                if i < d.len() {
                    assert(d[i] == p);
                    assert(d.contains(p));
                    assert(s.contains(p));
                    assert(r[s.index_of(p)] == p);
                } else {
                    assert(r[s.len() as int] == p);
                }
            }
            if p == pn {
                assert(s.contains(p));
                assert(r[s.index_of(p)] == p);
            }
        }
    }
}

proof fn lemma_insert_point(q: Seq<u64>, pn: u64, i: int)
    requires
        0 <= i <= q.len(),
        forall|k: int| i <= k < q.len() ==> q[k] > pn,
    ensures
        i == 0 || q[i - 1] < pn ==> with_number(q, pn) == q.take(i).push(pn) + q.skip(i),
        i > 0 && q[i - 1] == pn ==> with_number(q, pn) == q,
    decreases q.len(),
{
    if i == q.len() {
        assert(q.take(i).push(pn) + q.skip(i) =~= q.push(pn));
    } else {
        let d = q.drop_last();
        lemma_insert_point(d, pn, i);
        assert(d.push(q.last()) =~= q);
        assert(q.take(i).push(pn) + q.skip(i) =~= (d.take(i).push(pn) + d.skip(i)).push(q.last()));
    }
}

/// The received packet numbers of a space that an ACK frame may name.
#[derive(Debug)]
pub struct AckQueue {
    numbers: Vec<u64>,
}

impl View for AckQueue {
    type V = Seq<u64>;

    closed spec fn view(&self) -> Seq<u64> {
        self.numbers@
    }
}

impl AckQueue {
    /// In order, and no more than are kept.
    pub open spec fn wf(&self) -> bool {
        ascending(self@) && self@.len() <= MAX_ACK_QUEUE
    }

    pub fn new() -> (r: Self)
        ensures
            r@ == Seq::<u64>::empty(),
            r.wf(),
    {
        AckQueue { numbers: Vec::new() }
    }

    /// Whether `pn` is remembered.
    pub fn holds(&self, pn: u64) -> (r: bool)
        ensures
            r == self@.contains(pn),
    {
        let mut i: usize = 0;
        while i < self.numbers.len()
            invariant
                i <= self.numbers@.len(),
                forall|j: int| 0 <= j < i ==> self.numbers@[j] != pn,
            decreases self.numbers@.len() - i,
        {
            if self.numbers[i] == pn {
                proof {
                    assert(self@[i as int] == pn);
                }
                return true;
            }
            i = i + 1;
        }
        false
    }

    /// Remember `pn`, forgetting the smallest number where there are too many.
    pub fn insert(&mut self, pn: u64)
        requires
            old(self).wf(),
        ensures
            final(self)@ == newest(with_number(old(self)@, pn)),
            final(self).wf(),
    {
        let ghost q = self@;
        let mut i: usize = self.numbers.len();
        while i > 0 && self.numbers[i - 1] > pn
            invariant
                i <= q.len(),
                self.numbers@ == q,
                forall|k: int| i <= k < q.len() ==> q[k] > pn,
            decreases i,
        {
            i = i - 1;
        }
        proof {
            lemma_with_number(q, pn);
            lemma_insert_point(q, pn, i as int);
        }
        if i == 0 || self.numbers[i - 1] < pn {
            self.numbers.insert(i, pn);
            proof {
                assert(self.numbers@ =~= q.take(i as int).push(pn) + q.skip(i as int));
            }
        }
        assert(self.numbers@ == with_number(q, pn));
        if self.numbers.len() > MAX_ACK_QUEUE {
            let ghost all = self.numbers@;
            self.numbers.remove(0);
            proof {
                assert(self.numbers@ =~= all.skip(1));
            }
        }
    }

    /// The largest number.
    pub fn largest(&self) -> (r: Option<u64>)
        ensures
            self@.len() == 0 ==> r is None,
            self@.len() > 0 ==> r == Some(self@.last()),
    {
        if self.numbers.len() == 0 {
            None
        } else {
            Some(self.numbers[self.numbers.len() - 1])
        }
    }

    /// The ranges of an ACK frame: pairs of a gap and a length, the largest numbers first,
    /// four ranges at most.
    pub fn build_ack_ranges(&self) -> (r: Vec<(u64, u64)>)
        requires
            self.wf(),
        ensures
            r@ == ack_ranges(self@),
    {
        let ghost q = self@;
        let mut ranges: Vec<(u64, u64)> = Vec::new();
        let mut top: usize = self.numbers.len();
        proof {
            assert(ack_ranges(q) =~= ranges@ + ranges_below(q, top - 1, MAX_ACK_RANGES as nat));
        }
        while top > 0 && ranges.len() < MAX_ACK_RANGES
            invariant
                top <= q.len(),
                self.numbers@ == q,
                ascending(q),
                0 < top < q.len() ==> q[top - 1] + 1 < q[top as int],
                ranges@.len() <= MAX_ACK_RANGES,
                ack_ranges(q) == ranges@ + ranges_below(
                    q,
                    top - 1,
                    (MAX_ACK_RANGES - ranges@.len()) as nat,
                ),
            decreases top,
        {
            let i: usize = top - 1;
            let gap: u64 = if top == self.numbers.len() {
                0
            } else {
                self.numbers[top] - self.numbers[i] - 2
            };
            let mut low: usize = i;
            while low > 0 && self.numbers[low] - self.numbers[low - 1] == 1
                invariant
                    low <= i < q.len(),
                    self.numbers@ == q,
                    ascending(q),
                    run_below(q, i as int) == (i - low) + run_below(q, low as int),
                decreases low,
            {
                low = low - 1;
            }
            proof {
                assert(run_below(q, low as int) == 0);
                let n = (MAX_ACK_RANGES - ranges@.len()) as nat;
                let one = seq![(gap, (i - low) as u64)];
                assert(ranges_below(q, top - 1, n) =~= one + ranges_below(
                    q,
                    low - 1,
                    (n - 1) as nat,
                ));
                assert(ranges@.push((gap, (i - low) as u64)) =~= ranges@ + one);
                assert(ack_ranges(q) =~= ranges@.push((gap, (i - low) as u64)) + ranges_below(
                    q,
                    low - 1,
                    (n - 1) as nat,
                ));
            }
            ranges.push((gap, (i - low) as u64));
            top = low;
        }
        proof {
            assert(ack_ranges(q) =~= ranges@);
        }
        ranges
    }
}

/// How many numbers directly below the `i`th are in an ascending list without a gap.
pub open spec fn run_below(q: Seq<u64>, i: int) -> nat
    decreases i,
{
    if 0 < i < q.len() && q[i - 1] + 1 == q[i] {
        1 + run_below(q, i - 1)
    } else {
        0
    }
}

/// At most `n` ranges that name the first `i + 1` numbers, from the largest down.
pub open spec fn ranges_below(q: Seq<u64>, i: int, n: nat) -> Seq<(u64, u64)>
    decreases n,
{
    if i < 0 || i >= q.len() || n == 0 {
        Seq::empty()
    } else {
        let gap = if i + 1 == q.len() {
            0
        } else {
            (q[i + 1] - q[i] - 2) as u64
        };
        let run = run_below(q, i);
        seq![(gap, run as u64)] + ranges_below(q, i - run - 1, (n - 1) as nat)
    }
}

/// The ranges of an ACK frame for an ascending list.
pub open spec fn ack_ranges(q: Seq<u64>) -> Seq<(u64, u64)> {
    ranges_below(q, q.len() - 1, MAX_ACK_RANGES as nat)
}

// ---------------------------------------------------------------------------
// Reading an ACK frame
// ---------------------------------------------------------------------------

/// The intervals that further ranges name below a lowest number: each one's ends.
pub open spec fn intervals_below(low: u64, ranges: Seq<(u64, u64)>) -> Seq<(u64, u64)>
    decreases ranges.len(),
{
    if ranges.len() == 0 {
        Seq::empty()
    } else {
        let high = minus(minus(low, ranges[0].0), 2);
        let next = minus(high, ranges[0].1);
        seq![(next, high)] + intervals_below(next, ranges.skip(1))
    }
}

/// The intervals of packet numbers that an ACK frame names, from the largest down.
pub open spec fn intervals(largest: u64, ranges: Seq<(u64, u64)>) -> Seq<(u64, u64)> {
    if ranges.len() == 0 {
        seq![(largest, largest)]
    } else {
        let low = minus(largest, ranges[0].1);
        seq![(low, largest)] + intervals_below(low, ranges.skip(1))
    }
}

/// Whether one of the intervals holds a packet number.
pub open spec fn names(intervals: Seq<(u64, u64)>, pn: u64) -> bool {
    exists|i: int|
        0 <= i < intervals.len() && (#[trigger] intervals[i]).0 <= pn <= intervals[i].1
}

/// How many packet numbers the intervals name: each one's numbers, but none twice. The
/// intervals descend, so only the number zero can be named again.
pub open spec fn count_of(intervals: Seq<(u64, u64)>) -> int
    decreases intervals.len(),
{
    if intervals.len() == 0 {
        0
    } else {
        let n = intervals.len() - 1;
        let last = intervals[n];
        count_of(intervals.drop_last()) + if n > 0 && intervals[n - 1].0 == 0 {
            0
        } else {
            minus(last.1, last.0) + 1
        }
    }
}

proof fn lemma_below_covered(q: Seq<u64>, i: int, n: nat, pn: u64)
    requires
        ascending(q),
        -1 <= i < q.len() - 1,
        i >= 0 ==> q[i] + 1 < q[i + 1],
        names(intervals_below(q[i + 1], ranges_below(q, i, n)), pn),
    ensures
        q.contains(pn),
    decreases n,
{
    let ranges = ranges_below(q, i, n);
    let ivs = intervals_below(q[i + 1], ranges);
    if i < 0 || n == 0 {
        assert(ranges.len() == 0);
    } else {
        let run = run_below(q, i);
        lemma_run(q, i);
        assert(q[i] < q[i + 1]);
        assert(ranges.skip(1) =~= ranges_below(q, i - run - 1, (n - 1) as nat));
        let rest = intervals_below(q[i - run], ranges.skip(1));
        assert(minus(minus(q[i + 1], ranges[0].0), 2) == q[i]);
        assert(minus(q[i], ranges[0].1) == q[i - run]);
        assert(ivs =~= seq![(q[i - run], q[i])] + rest);
        let k = choose|k: int| 0 <= k < ivs.len() && (#[trigger] ivs[k]).0 <= pn <= ivs[k].1;
        if k == 0 {
            assert(q[i - (q[i] - pn)] == pn);
        } else {
            assert(rest[k - 1] == ivs[k]);
            assert(names(rest, pn));
            lemma_below_covered(q, i - run - 1, (n - 1) as nat, pn);
        }
    }
}

proof fn lemma_run(q: Seq<u64>, i: int)
    requires
        0 <= i < q.len(),
        ascending(q),
    ensures
        run_below(q, i) <= i,
        run_below(q, i) < i ==> q[i - run_below(q, i) - 1] + 1 < q[i - run_below(q, i)],
        forall|d: int| 0 <= d <= run_below(q, i) ==> #[trigger] q[i - d] == q[i] - d,
    decreases i,
{
    if 0 < i && q[i - 1] + 1 == q[i] {
        lemma_run(q, i - 1);
        assert forall|d: int| 0 <= d <= run_below(q, i) implies #[trigger] q[i - d] == q[i]
            - d by {
            if d > 0 {
                assert(q[(i - 1) - (d - 1)] == q[i - 1] - (d - 1));
            }
        }
    }
}

proof fn lemma_descends(q: Seq<u64>, i: int, n: nat)
    requires
        ascending(q),
        -1 <= i < q.len() - 1,
        i >= 0 ==> q[i] + 1 < q[i + 1],
    ensures
        descends(q[i + 1], ranges_below(q, i, n)),
        ranges_below(q, i, n).len() <= n,
    decreases n,
{
    let ranges = ranges_below(q, i, n);
    if i >= 0 && n > 0 {
        let run = run_below(q, i);
        lemma_run(q, i);
        assert(q[i - run] == q[i] - run);
        assert(ranges.skip(1) =~= ranges_below(q, i - run - 1, (n - 1) as nat));
        lemma_descends(q, i - run - 1, (n - 1) as nat);
    }
}

/// An ACK frame built from the received packet numbers is one that its receiver takes.
pub proof fn lemma_ack_readable(q: Seq<u64>)
    requires
        ascending(q),
        q.len() > 0,
    ensures
        ranges_readable(q.last(), ack_ranges(q)),
{
    let i = q.len() - 1;
    let ranges = ack_ranges(q);
    let run = run_below(q, i);
    lemma_run(q, i);
    assert(q[i - run] == q[i] - run);
    assert(ranges.skip(1) =~= ranges_below(q, i - run - 1, (MAX_ACK_RANGES - 1) as nat));
    lemma_descends(q, i - run - 1, (MAX_ACK_RANGES - 1) as nat);
}

/// An ACK frame built from the received packet numbers names the largest of them, and no
/// packet number that was not received.
pub proof fn lemma_ack_names_received(q: Seq<u64>, pn: u64)
    requires
        ascending(q),
        q.len() > 0,
    ensures
        names(intervals(q.last(), ack_ranges(q)), q.last()),
        names(intervals(q.last(), ack_ranges(q)), pn) ==> q.contains(pn),
{
    let i = q.len() - 1;
    let ranges = ack_ranges(q);
    let run = run_below(q, i);
    lemma_run(q, i);
    let ivs = intervals(q.last(), ranges);
    assert(ranges[0] == (0u64, run as u64));
    assert(ranges.skip(1) =~= ranges_below(q, i - run - 1, (MAX_ACK_RANGES - 1) as nat));
    assert(q[i - run] == q[i] - run);
    assert(ivs[0] == (q[i - run], q[i]));
    assert(names(ivs, q.last()));
    if names(ivs, pn) {
        let k = choose|k: int| 0 <= k < ivs.len() && (#[trigger] ivs[k]).0 <= pn <= ivs[k].1;
        if k == 0 {
            assert(q[i - (q[i] - pn)] == pn);
        } else {
            let rest = intervals_below(q[i - run], ranges.skip(1));
            assert(rest[k - 1] == ivs[k]);
            assert(names(rest, pn));
            lemma_below_covered(q, i - run - 1, (MAX_ACK_RANGES - 1) as nat, pn);
        }
    }
}

/// The intervals of an ACK frame.
pub fn ack_intervals(largest: u64, ranges: &Vec<(u64, u64)>) -> (r: Vec<(u64, u64)>)
    ensures
        r@ == intervals(largest, ranges@),
{
    let mut out: Vec<(u64, u64)> = Vec::new();
    if ranges.len() == 0 {
        out.push((largest, largest));
        proof {
            assert(out@ =~= seq![(largest, largest)]);
        }
        return out;
    }
    let mut low: u64 = largest.saturating_sub(ranges[0].1);
    out.push((low, largest));
    let ghost whole = intervals(largest, ranges@);
    let mut i: usize = 1;
    proof {
        assert(whole =~= out@ + intervals_below(low, ranges@.skip(1)));
    }
    while i < ranges.len()
        invariant
            1 <= i <= ranges@.len(),
            whole == out@ + intervals_below(low, ranges@.skip(i as int)),
        decreases ranges@.len() - i,
    {
        let high: u64 = low.saturating_sub(ranges[i].0).saturating_sub(2);
        let next: u64 = high.saturating_sub(ranges[i].1);
        proof {
            let rest = ranges@.skip(i as int);
            assert(rest.skip(1) =~= ranges@.skip(i + 1));
            assert(rest[0] == ranges@[i as int]);
            assert(whole =~= out@.push((next, high)) + intervals_below(next, ranges@.skip(i + 1)));
        }
        out.push((next, high));
        low = next;
        i = i + 1;
    }
    proof {
        assert(ranges@.skip(i as int) =~= Seq::empty());
        assert(whole =~= out@);
    }
    out
}

/// How many packet numbers the intervals name; the largest number where there are more.
pub fn count_named(intervals: &Vec<(u64, u64)>) -> (r: u64)
    ensures
        r == capped(count_of(intervals@)),
{
    let ghost all = intervals@;
    let mut n: u64 = 0;
    let mut i: usize = 0;
    proof {
        assert(all.take(0) =~= Seq::empty());
    }
    while i < intervals.len()
        invariant
            i <= all.len(),
            all == intervals@,
            n == capped(count_of(all.take(i as int))),
            0 <= count_of(all.take(i as int)),
        decreases all.len() - i,
    {
        proof {
            let t = all.take(i + 1);
            assert(t.drop_last() =~= all.take(i as int));
            assert(t[i as int] == all[i as int]);
            assert(i > 0 ==> t[i - 1] == all[i - 1]);
        }
        if i == 0 || intervals[i - 1].0 != 0 {
            let len: u64 = intervals[i].1.saturating_sub(intervals[i].0);
            n = n.saturating_add(len).saturating_add(1);
        }
        i = i + 1;
    }
    proof {
        assert(all.take(i as int) =~= all);
    }
    n
}

/// Whether one of the intervals holds a packet number.
pub fn is_named(intervals: &Vec<(u64, u64)>, pn: u64) -> (r: bool)
    ensures
        r == names(intervals@, pn),
{
    let mut i: usize = 0;
    while i < intervals.len()
        invariant
            i <= intervals@.len(),
            forall|j: int|
                0 <= j < i ==> !((#[trigger] intervals@[j]).0 <= pn <= intervals@[j].1),
        decreases intervals@.len() - i,
    {
        if intervals[i].0 <= pn && pn <= intervals[i].1 {
            return true;
        }
        i = i + 1;
    }
    false
}

} // verus!
