use crate::util::Coord;
use vstd::prelude::*;

verus! {

/// Each cell of the list is linked to the next.
pub open spec fn chained(link: spec_fn(Coord, Coord) -> bool, w: Seq<Coord>) -> bool {
    forall|i: int| 0 <= i < w.len() - 1 ==> link(#[trigger] w[i], w[i + 1])
}

/// The first place from `n` on at which two lists part. Up to `n` they agree.
proof fn lemma_parting(p: Seq<Coord>, q: Seq<Coord>, n: int) -> (i: int)
    requires
        0 <= n <= p.len(),
        n <= q.len(),
        forall|k: int| 0 <= k < n ==> p[k] == q[k],
    ensures
        n <= i <= p.len(),
        i <= q.len(),
        forall|k: int| 0 <= k < i ==> p[k] == q[k],
        i == p.len() || i == q.len() || p[i] != q[i],
    decreases p.len() - n,
{
    if n == p.len() || n == q.len() || p[n] != q[n] {
        n
    } else {
        lemma_parting(p, q, n + 1)
    }
}

/// The first cell of `p` from `j` on that `q` holds at `i` or later, and its place
/// in `q`.
proof fn lemma_meeting(p: Seq<Coord>, q: Seq<Coord>, i: int, j: int) -> (at: (int, int))
    requires
        0 <= i <= j < p.len(),
        i < q.len(),
        p.last() == q.last(),
        forall|m: int, n: int| i <= m < j && i <= n < q.len() ==> p[m] != q[n],
    ensures
        j <= at.0 < p.len(),
        i <= at.1 < q.len(),
        p[at.0] == q[at.1],
        forall|m: int, n: int| i <= m < at.0 && i <= n < q.len() ==> p[m] != q[n],
    decreases p.len() - j,
{
    if exists|n: int| i <= n < q.len() && q[n] == p[j] {
        let n = choose|n: int| i <= n < q.len() && q[n] == p[j];
        (j, n)
    } else {
        assert(j < p.len() - 1) by {
            if j == p.len() - 1 {
                assert(q[q.len() - 1] == p[j]);
            }
        }
        lemma_meeting(p, q, i, j + 1)
    }
}

/// The round trip that two ways make: from the cell at which they part along `p` to
/// the cell at which they meet again, and back along `q`.
spec fn round_trip(p: Seq<Coord>, q: Seq<Coord>, i: int, j: int, k: int) -> Seq<Coord> {
    Seq::new(
        (j - i + 2 + (k - i)) as nat,
        |t: int|
            if t == 0 {
                p[i - 1]
            } else if t < j - i + 2 {
                p[i + t - 1]
            } else {
                q[k - 1 - (t - (j - i + 2))]
            },
    )
}

/// The round trip visits no cell twice.
proof fn lemma_round_trip_distinct(p: Seq<Coord>, q: Seq<Coord>, i: int, j: int, k: int)
    requires
        1 <= i <= j < p.len(),
        i <= k < q.len(),
        p.no_duplicates(),
        q.no_duplicates(),
        p[i - 1] == q[i - 1],
        p[j] == q[k],
        forall|m: int, n: int| i <= m < j && i <= n < q.len() ==> p[m] != q[n],
    ensures
        round_trip(p, q, i, j, k).no_duplicates(),
{
    let c = round_trip(p, q, i, j, k);
    let mid = j - i + 2;
    assert forall|s: int, t: int| 0 <= s < c.len() && 0 <= t < c.len() && s != t implies c[s]
        != c[t] by {
        let lo = if s < t {
            s
        } else {
            t
        };
        let hi = if s < t {
            t
        } else {
            s
        };
        if lo == 0 {
            if hi < mid {
                assert(p[i - 1] != p[i + hi - 1]);
            } else {
                assert(q[i - 1] != q[k - 1 - (hi - mid)]);
            }
        } else if hi < mid {
            assert(p[i + lo - 1] != p[i + hi - 1]);
        } else if lo < mid {
            if lo == mid - 1 {
                assert(q[k] != q[k - 1 - (hi - mid)]);
            } else {
                assert(p[i + lo - 1] != q[k - 1 - (hi - mid)]);
            }
        } else {
            assert(q[k - 1 - (lo - mid)] != q[k - 1 - (hi - mid)]);
        }
    }
}

/// The round trip is chained, and its last cell is linked to its first.
proof fn lemma_round_trip_chained(
    link: spec_fn(Coord, Coord) -> bool,
    p: Seq<Coord>,
    q: Seq<Coord>,
    i: int,
    j: int,
    k: int,
)
    requires
        forall|x: Coord, y: Coord| #[trigger] link(x, y) ==> link(y, x),
        chained(link, p),
        chained(link, q),
        1 <= i <= j < p.len(),
        i <= k < q.len(),
        p[i - 1] == q[i - 1],
        p[j] == q[k],
    ensures
        chained(link, round_trip(p, q, i, j, k)),
        link(round_trip(p, q, i, j, k).last(), round_trip(p, q, i, j, k)[0]),
{
    let c = round_trip(p, q, i, j, k);
    let mid = j - i + 2;
    assert forall|t: int| 0 <= t < c.len() - 1 implies link(#[trigger] c[t], c[t + 1]) by {
        if t + 1 < mid {
            assert(link(p[i + t - 1], p[i + t - 1 + 1]));
        } else {
            let n = k - 1 - (t + 1 - mid);
            assert(link(q[n], q[n + 1]));
        }
    }
    assert(link(q[i - 1], q[i - 1 + 1]));
}

/// Two different ways between the same two cells, neither of which visits a cell
/// twice, close a cycle: the list returned names three or more cells, none twice,
/// each linked to the next and the last to the first. It begins at a cell of `p`.
pub proof fn lemma_two_ways_close_a_cycle(
    link: spec_fn(Coord, Coord) -> bool,
    p: Seq<Coord>,
    q: Seq<Coord>,
) -> (c: Seq<Coord>)
    requires
        forall|x: Coord, y: Coord| #[trigger] link(x, y) ==> link(y, x),
        chained(link, p),
        chained(link, q),
        p.len() >= 1,
        q.len() >= 1,
        p[0] == q[0],
        p.last() == q.last(),
        p.no_duplicates(),
        q.no_duplicates(),
        p != q,
    ensures
        c.len() >= 3,
        c.no_duplicates(),
        chained(link, c),
        link(c.last(), c[0]),
        exists|n: int| 0 <= n < p.len() && p[n] == c[0],
{
    let i = lemma_parting(p, q, 1);
    if i == p.len() || i == q.len() {
        if p.len() == q.len() {
            assert(p =~= q);
        } else if i == p.len() {
            assert(q[i - 1] == q[q.len() - 1]);
        } else {
            assert(p[i - 1] == p[p.len() - 1]);
        }
        assert(false);
    }
    let at = lemma_meeting(p, q, i, i);
    lemma_round_trip_distinct(p, q, i, at.0, at.1);
    lemma_round_trip_chained(link, p, q, i, at.0, at.1);
    let c = round_trip(p, q, i, at.0, at.1);
    assert(p[i - 1] == c[0]);
    c
}

/// A way can be cut short until it visits no cell twice: wherever it comes back to a
/// cell, the round in between is left out.
pub proof fn lemma_cut_short(link: spec_fn(Coord, Coord) -> bool, w: Seq<Coord>) -> (v: Seq<Coord>)
    requires
        chained(link, w),
        w.len() >= 1,
    ensures
        chained(link, v),
        v.len() >= 1,
        v[0] == w[0],
        v.last() == w.last(),
        v.no_duplicates(),
    decreases w.len(),
{
    if w.no_duplicates() {
        w
    } else {
        let (i, j) = choose|i: int, j: int|
            0 <= i < w.len() && 0 <= j < w.len() && i != j && w[i] == w[j];
        let lo = if i < j {
            i
        } else {
            j
        };
        let hi = if i < j {
            j
        } else {
            i
        };
        let u = w.subrange(0, lo + 1) + w.subrange(hi + 1, w.len() as int);
        assert forall|t: int| 0 <= t < u.len() - 1 implies link(#[trigger] u[t], u[t + 1]) by {
            if t < lo {
                assert(link(w[t], w[t + 1]));
            } else {
                let n = t + (hi - lo);
                assert(link(w[n], w[n + 1]));
            }
        }
        lemma_cut_short(link, u)
    }
}

} // verus!
