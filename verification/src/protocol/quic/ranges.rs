//! Which bytes of a sent stream are acknowledged: all before a position, and ranges ahead of
//! it. The position moves on as soon as the ranges reach it.

use super::recovery::{max_int, min_int};
use vstd::prelude::*;

verus! {

/// Ranges in order, none of them empty, with at least a byte between any two.
pub open spec fn apart(r: Seq<(u64, u64)>) -> bool {
    &&& forall|i: int| 0 <= i < r.len() ==> (#[trigger] r[i]).0 < r[i].1
    &&& forall|i: int, j: int| 0 <= i < j < r.len() ==> (#[trigger] r[i]).1 < (#[trigger] r[j]).0
}

/// Whether a range holds an offset.
pub open spec fn within(range: (u64, u64), at: int) -> bool {
    range.0 <= at < range.1
}

/// Whether one of the ranges holds an offset.
pub open spec fn in_ranges(r: Seq<(u64, u64)>, at: int) -> bool {
    exists|i: int| 0 <= i < r.len() && within(#[trigger] r[i], at)
}

/// Ranges that stand apart from each other, from a position and from what lies behind
/// `limit`.
#[verifier::opaque]
pub open spec fn ahead(pos: u64, r: Seq<(u64, u64)>, limit: int) -> bool {
    &&& apart(r)
    &&& forall|i: int| 0 <= i < r.len() ==> pos < (#[trigger] r[i]).0 && r[i].1 <= limit
}

/// No ranges are ahead of any position, and ranges stay ahead as the limit grows.
pub proof fn lemma_ahead(pos: u64, r: Seq<(u64, u64)>, limit: int, further: int)
    ensures
        ahead(pos, Seq::empty(), limit),
        ahead(pos, r, limit) && limit <= further ==> ahead(pos, r, further),
{
    reveal(ahead);
}

/// The ranges with `a..b` among them. What it overlaps or touches becomes one range with it.
pub open spec fn with_range(r: Seq<(u64, u64)>, a: u64, b: u64) -> Seq<(u64, u64)>
    decreases r.len(),
{
    if r.len() == 0 {
        seq![(a, b)]
    } else if r[0].1 < a {
        seq![r[0]] + with_range(r.skip(1), a, b)
    } else if b < r[0].0 {
        seq![(a, b)] + r
    } else {
        with_range(
            r.skip(1),
            min_int(a as int, r[0].0 as int) as u64,
            max_int(b as int, r[0].1 as int) as u64,
        )
    }
}

/// The position and the ranges ahead of it once `a..b` is acknowledged too.
pub open spec fn settled(pos: u64, r: Seq<(u64, u64)>, a: u64, b: u64) -> (
    u64,
    Seq<(u64, u64)>,
) {
    let all = with_range(r, a, b);
    if all[0].0 <= pos {
        (all[0].1, all.skip(1))
    } else {
        (pos, all)
    }
}

/// The same for a frame with `len` bytes at `offset`, of which only those from the position
/// to `limit` count.
pub open spec fn acknowledged(
    pos: u64,
    r: Seq<(u64, u64)>,
    limit: u64,
    offset: u64,
    len: nat,
) -> (u64, Seq<(u64, u64)>) {
    let a = max_int(offset as int, pos as int);
    let b = min_int(offset + len, limit as int);
    if a < b {
        settled(pos, r, a as u64, b as u64)
    } else {
        (pos, r)
    }
}

proof fn lemma_apart_tail(r: Seq<(u64, u64)>)
    requires
        apart(r),
        r.len() > 0,
    ensures
        apart(r.skip(1)),
        forall|i: int| 0 <= i < r.len() - 1 ==> r[0].1 < (#[trigger] r.skip(1)[i]).0,
{
    let t = r.skip(1);
    assert forall|i: int| 0 <= i < t.len() implies (#[trigger] t[i]).0 < t[i].1 && r[0].1 < t[i].0 by {
        assert(r[0].1 < r[i + 1].0);
    }
    assert forall|i: int, j: int| 0 <= i < j < t.len() implies (#[trigger] t[i]).1 < (
    #[trigger] t[j]).0 by {
        assert(r[i + 1].1 < r[j + 1].0);
    }
}

proof fn lemma_in_tail(r: Seq<(u64, u64)>, at: int)
    requires
        r.len() > 0,
    ensures
        in_ranges(r, at) == (within(r[0], at) || in_ranges(r.skip(1), at)),
{
    let t = r.skip(1);
    if in_ranges(r, at) {
        let i = choose|i: int| 0 <= i < r.len() && within(#[trigger] r[i], at);
        if i > 0 {
            assert(within(t[i - 1], at));
        }
    }
    if in_ranges(t, at) {
        let i = choose|i: int| 0 <= i < t.len() && within(#[trigger] t[i], at);
        assert(within(r[i + 1], at));
    }
}

/// Adding a range keeps the ranges apart and above whatever lies before all of them.
proof fn lemma_with_range_apart(r: Seq<(u64, u64)>, a: u64, b: u64, low: int, limit: int)
    requires
        apart(r),
        low < a < b <= limit,
        forall|i: int| 0 <= i < r.len() ==> low < (#[trigger] r[i]).0 && r[i].1 <= limit,
    ensures
        apart(with_range(r, a, b)),
        with_range(r, a, b).len() > 0,
        forall|i: int|
            0 <= i < with_range(r, a, b).len() ==> low < (#[trigger] with_range(r, a, b)[i]).0
                && with_range(r, a, b)[i].1 <= limit,
    decreases r.len(),
{
    let w = with_range(r, a, b);
    if r.len() > 0 {
        let t = r.skip(1);
        lemma_apart_tail(r);
        assert forall|i: int| 0 <= i < t.len() implies low < (#[trigger] t[i]).0 && t[i].1
            <= limit by {
            assert(low < r[i + 1].0 && r[i + 1].1 <= limit);
        }
        assert(low < r[0].0 && r[0].1 <= limit && r[0].0 < r[0].1);
        if r[0].1 < a {
            lemma_with_range_apart(t, a, b, r[0].1 as int, limit);
            let rest = with_range(t, a, b);
            assert(w == seq![r[0]] + rest);
            assert forall|i: int| 0 <= i < w.len() implies low < (#[trigger] w[i]).0 && w[i].1
                <= limit && w[i].0 < w[i].1 by {
                if i > 0 {
                    assert(w[i] == rest[i - 1]);
                }
            }
            assert forall|i: int, j: int| 0 <= i < j < w.len() implies (#[trigger] w[i]).1 < (
            #[trigger] w[j]).0 by {
                assert(w[j] == rest[j - 1]);
                if i > 0 {
                    assert(w[i] == rest[i - 1]);
                }
            }
        } else if b < r[0].0 {
            assert(w == seq![(a, b)] + r);
            assert forall|i: int| 0 <= i < w.len() implies low < (#[trigger] w[i]).0 && w[i].1
                <= limit && w[i].0 < w[i].1 by {
                if i > 0 {
                    assert(w[i] == r[i - 1]);
                }
            }
            assert forall|i: int, j: int| 0 <= i < j < w.len() implies (#[trigger] w[i]).1 < (
            #[trigger] w[j]).0 by {
                assert(w[j] == r[j - 1]);
                if i > 0 {
                    assert(w[i] == r[i - 1]);
                } else if j > 1 {
                    assert(r[0].1 < r[j - 1].0);
                }
            }
        } else {
            lemma_with_range_apart(
                t,
                min_int(a as int, r[0].0 as int) as u64,
                max_int(b as int, r[0].1 as int) as u64,
                low,
                limit,
            );
        }
    }
}

/// Adding a range adds its offsets and no other.
proof fn lemma_with_range_holds(r: Seq<(u64, u64)>, a: u64, b: u64, at: int)
    requires
        apart(r),
        a < b,
    ensures
        in_ranges(with_range(r, a, b), at) == (in_ranges(r, at) || a <= at < b),
    decreases r.len(),
{
    let w = with_range(r, a, b);
    if r.len() == 0 {
        assert(w.skip(1) =~= r);
        lemma_in_tail(w, at);
    } else {
        let t = r.skip(1);
        lemma_apart_tail(r);
        lemma_in_tail(r, at);
        if r[0].1 < a {
            lemma_with_range_holds(t, a, b, at);
            assert(w.skip(1) =~= with_range(t, a, b));
            lemma_in_tail(w, at);
        } else if b < r[0].0 {
            assert(w.skip(1) =~= r);
            lemma_in_tail(w, at);
        } else {
            assert(r[0].0 < r[0].1);
            lemma_with_range_holds(
                t,
                min_int(a as int, r[0].0 as int) as u64,
                max_int(b as int, r[0].1 as int) as u64,
                at,
            );
        }
    }
}

/// An acknowledged frame takes exactly its bytes out of those that are not acknowledged, and
/// the ranges stay ahead of the position.
pub proof fn lemma_acknowledged(
    pos: u64,
    r: Seq<(u64, u64)>,
    limit: u64,
    offset: u64,
    len: nat,
    at: int,
)
    requires
        ahead(pos, r, limit as int),
        pos <= limit,
    ensures
        ({
            let (p, q) = acknowledged(pos, r, limit, offset, len);
            &&& pos <= p <= limit
            &&& ahead(p, q, limit as int)
            &&& pos <= at < limit ==> (p <= at && !in_ranges(q, at)) == (!in_ranges(r, at) && !(
            offset <= at < offset + len))
        }),
{
    reveal(ahead);
    let a = max_int(offset as int, pos as int);
    let b = min_int(offset + len, limit as int);
    if a < b {
        let w = with_range(r, a as u64, b as u64);
        lemma_with_range_apart(r, a as u64, b as u64, pos - 1, limit as int);
        lemma_with_range_holds(r, a as u64, b as u64, at);
        lemma_apart_tail(w);
        lemma_in_tail(w, at);
        let (p, q) = settled(pos, r, a as u64, b as u64);
        assert(pos - 1 < w[0].0 && w[0].1 <= limit && w[0].0 < w[0].1);
        if w[0].0 <= pos {
            assert forall|i: int| 0 <= i < q.len() implies p < (#[trigger] q[i]).0 && q[i].1
                <= limit by {
                assert(q[i] == w[i + 1]);
            }
            if at < p && pos <= at {
                assert(within(w[0], at));
            }
            if p <= at {
                assert(!within(w[0], at));
            }
        } else {
            assert forall|i: int| 0 <= i < w.len() implies pos < (#[trigger] w[i]).0 by {
                if i > 0 {
                    assert(w[0].1 < w[i].0);
                }
            }
        }
    }
}

/// Add `a..b` to the ranges.
fn add_range(ranges: &Vec<(u64, u64)>, a: u64, b: u64) -> (r: Vec<(u64, u64)>)
    requires
        apart(ranges@),
        a < b,
    ensures
        r@ == with_range(ranges@, a, b),
{
    let (mut a, mut b): (u64, u64) = (a, b);
    let ghost whole = with_range(ranges@, a, b);
    let mut out: Vec<(u64, u64)> = Vec::new();
    let mut i: usize = 0;
    proof {
        assert(ranges@.skip(0) =~= ranges@);
        assert(whole =~= out@ + with_range(ranges@.skip(0), a, b));
    }
    while i < ranges.len() && ranges[i].0 <= b
        invariant
            i <= ranges@.len(),
            apart(ranges@),
            a < b,
            whole == out@ + with_range(ranges@.skip(i as int), a, b),
        decreases ranges@.len() - i,
    {
        let ghost rest = ranges@.skip(i as int);
        let ghost before = out@;
        let ghost (x, y) = (a, b);
        let (from, to): (u64, u64) = ranges[i];
        proof {
            assert(rest[0] == ranges@[i as int]);
            assert(rest.skip(1) =~= ranges@.skip(i + 1));
        }
        if to < a {
            out.push((from, to));
        } else {
            if from < a {
                a = from;
            }
            if to > b {
                b = to;
            }
        }
        i = i + 1;
        proof {
            assert(before + (seq![rest[0]] + with_range(rest.skip(1), x, y)) =~= before.push(
                rest[0],
            ) + with_range(rest.skip(1), x, y));
        }
    }
    let ghost rest = ranges@.skip(i as int);
    let ghost before = out@;
    proof {
        if i < ranges@.len() {
            assert(rest[0] == ranges@[i as int]);
            assert(rest[0].0 < rest[0].1);
        }
    }
    let ghost bound = (a, b);
    out.push((a, b));
    while i < ranges.len()
        invariant
            i <= ranges@.len(),
            before.push(bound) + rest == out@ + ranges@.skip(i as int),
        decreases ranges@.len() - i,
    {
        let ghost was = out@;
        out.push((ranges[i].0, ranges[i].1));
        proof {
            assert(out@ + ranges@.skip(i + 1) =~= was + ranges@.skip(i as int));
        }
        i = i + 1;
    }
    proof {
        assert(out@ =~= before.push(bound) + rest);
        assert(out@ =~= whole);
    }
    out
}

/// Note that a frame with `len` bytes at `offset` is acknowledged; the position behind it.
pub fn acknowledge(
    pos: u64,
    ranges: &mut Vec<(u64, u64)>,
    limit: u64,
    offset: u64,
    len: usize,
) -> (r: u64)
    requires
        ahead(pos, old(ranges)@, limit as int),
        pos <= limit,
    ensures
        (r, final(ranges)@) == acknowledged(pos, old(ranges)@, limit, offset, len as nat),
        pos <= r <= limit,
        ahead(r, final(ranges)@, limit as int),
{
    proof {
        reveal(ahead);
        lemma_acknowledged(pos, ranges@, limit, offset, len as nat, 0);
    }
    let a: u64 = if offset > pos {
        offset
    } else {
        pos
    };
    let end: u128 = offset as u128 + len as u128;
    let b: u64 = if end < limit as u128 {
        end as u64
    } else {
        limit
    };
    if a >= b {
        return pos;
    }
    proof {
        lemma_with_range_apart(ranges@, a, b, pos - 1, limit as int);
    }
    let mut all = add_range(ranges, a, b);
    if all[0].0 <= pos {
        let (_, to): (u64, u64) = all.remove(0);
        proof {
            assert(all@ =~= with_range(old(ranges)@, a, b).skip(1));
        }
        *ranges = all;
        to
    } else {
        *ranges = all;
        pos
    }
}

} // verus!
