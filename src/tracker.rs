//! Sliding-window minimum over a stream of scores: a monotonic double-ended
//! queue of positions over a ring buffer of scores.
use vstd::prelude::*;
use std::collections::VecDeque;
use crate::windows::{is_leftmost_min, is_tied, lemma_min_pos, lemma_min_pos_is, min_pos};

verus! {

/// Tracks the leftmost minimal score among the last `width` scores pushed.
pub struct WindowTracker {
    /// Ring size: score of position `p` lives at `p % ring`.
    ring: usize,
    /// Number of positions in a full window.
    width: usize,
    buffer: Vec<u64>,
    /// Positions whose score no later position in the window undercuts, in
    /// increasing order; the front is the leftmost minimum.
    dq: VecDeque<usize>,
    /// Number of scores pushed so far.
    next: usize,
    scores: Ghost<Seq<u64>>,
}

/// First position of the window that ends just before `next`.
pub open spec fn window_lo(next: int, width: int) -> int {
    if next >= width {
        next - width
    } else {
        0
    }
}

/// `d` is the monotonic queue of the window `sc[lo .. n)`: increasing
/// positions of the window, each a suffix minimum, with everything before the
/// front and between two neighbours larger than the later of the two.
#[verifier::opaque]
pub open spec fn queue_ok(sc: Seq<u64>, lo: int, n: int, d: Seq<usize>) -> bool {
    &&& forall|i: int| 0 <= i < d.len() ==> lo <= #[trigger] d[i] < n
    &&& forall|i: int, j: int| 0 <= i < j < d.len() ==> d[i] < d[j]
    &&& forall|i: int, q: int|
        #![trigger d[i], sc[q]]
        0 <= i < d.len() && d[i] < q < n ==> sc[d[i] as int] <= sc[q]
    &&& d.len() > 0 ==> forall|q: int| lo <= q < d[0] ==> sc[d[0] as int] < #[trigger] sc[q]
    &&& forall|i: int, q: int|
        #![trigger d[i], sc[q]]
        0 <= i && i + 1 < d.len() && d[i] < q < d[i + 1] ==> sc[d[i + 1] as int] < sc[q]
}

/// The ring buffer holds the score of every position of `sc[lo .. n)`.
#[verifier::opaque]
pub open spec fn ring_ok(buf: Seq<u64>, ring: int, sc: Seq<u64>, lo: int, n: int) -> bool {
    forall|q: int| lo <= q < n ==> buf[q % ring] == #[trigger] sc[q]
}

/// Every position after the back of `d` (or of the whole window when `d` is
/// empty) scores above `s`.
pub open spec fn undercut_tail(sc: Seq<u64>, lo: int, n: int, d: Seq<usize>, s: u64) -> bool {
    if d.len() > 0 {
        forall|q: int| d[d.len() - 1] < q < n ==> s < #[trigger] sc[q]
    } else {
        forall|q: int| lo <= q < n ==> s < #[trigger] sc[q]
    }
}

proof fn lemma_queue_bounds(sc: Seq<u64>, lo: int, n: int, d: Seq<usize>)
    requires
        queue_ok(sc, lo, n, d),
    ensures
        forall|i: int| 0 <= i < d.len() ==> lo <= #[trigger] d[i] < n,
        forall|i: int, j: int| 0 <= i < j < d.len() ==> d[i] < d[j],
{
    reveal(queue_ok);
}

proof fn lemma_evict_front(sc: Seq<u64>, lo: int, n: int, d: Seq<usize>)
    requires
        queue_ok(sc, lo - 1, n, d),
        d.len() > 0,
        d[0] == lo - 1,
    ensures
        queue_ok(sc, lo, n, d.drop_first()),
{
    reveal(queue_ok);
    let e = d.drop_first();
    assert forall|i: int, q: int|
        #![trigger e[i], sc[q]]
        0 <= i && i + 1 < e.len() && e[i] < q < e[i + 1] implies sc[e[i + 1] as int] < sc[q] by {
        assert(d[i + 1] < q < d[i + 2]);
    }
    if e.len() > 0 {
        assert forall|q: int| lo <= q < e[0] implies sc[e[0] as int] < #[trigger] sc[q] by {
            assert(d[0] < q < d[1]);
        }
    }
}

proof fn lemma_raise_lo(sc: Seq<u64>, lo0: int, lo: int, n: int, d: Seq<usize>)
    requires
        queue_ok(sc, lo0, n, d),
        lo0 <= lo,
        d.len() > 0 ==> d[0] >= lo,
    ensures
        queue_ok(sc, lo, n, d),
{
    reveal(queue_ok);
    assert forall|i: int| 0 <= i < d.len() implies lo <= #[trigger] d[i] < n by {
        if i > 0 {
            assert(d[0] < d[i]);
        }
    }
}

proof fn lemma_pop_back(sc: Seq<u64>, lo: int, n: int, d: Seq<usize>, s: u64)
    requires
        queue_ok(sc, lo, n, d),
        d.len() > 0,
        sc[d[d.len() - 1] as int] > s,
        undercut_tail(sc, lo, n, d, s),
    ensures
        queue_ok(sc, lo, n, d.drop_last()),
        undercut_tail(sc, lo, n, d.drop_last(), s),
{
    reveal(queue_ok);
    let e = d.drop_last();
    let b = d[d.len() - 1] as int;
    if e.len() > 0 {
        assert forall|q: int| e[e.len() - 1] < q < n implies s < #[trigger] sc[q] by {
            if q < b {
                assert(d[d.len() - 2] < q < d[d.len() - 1]);
            }
        }
    } else {
        assert forall|q: int| lo <= q < n implies s < #[trigger] sc[q] by {
            if q < b {
                assert(lo <= q < d[0]);
            }
        }
    }
}

proof fn lemma_push(sc: Seq<u64>, lo: int, n: int, d: Seq<usize>, s: u64)
    requires
        sc.len() == n,
        0 <= lo <= n,
        n < usize::MAX,
        queue_ok(sc, lo, n, d),
        undercut_tail(sc, lo, n, d, s),
        d.len() > 0 ==> sc[d[d.len() - 1] as int] <= s,
    ensures
        queue_ok(sc.push(s), lo, n + 1, d.push(n as usize)),
{
    reveal(queue_ok);
    let t = sc.push(s);
    let e = d.push(n as usize);
    assert forall|i: int, q: int|
        #![trigger e[i], t[q]]
        0 <= i < e.len() && e[i] < q < n + 1 implies t[e[i] as int] <= t[q] by {
        if q == n && i < d.len() - 1 {
            assert(d[i] < d[d.len() - 1]);
            assert(sc[d[i] as int] <= sc[d[d.len() - 1] as int]);
        }
    }
    assert forall|i: int, q: int|
        #![trigger e[i], t[q]]
        0 <= i && i + 1 < e.len() && e[i] < q < e[i + 1] implies t[e[i + 1] as int] < t[q] by {
        if i + 1 < d.len() {
            assert(d[i] < q < d[i + 1]);
        }
    }
    if d.len() == 0 {
        assert forall|q: int| lo <= q < e[0] implies t[e[0] as int] < #[trigger] t[q] by {
            assert(t[q] == sc[q]);
            assert(t[n] == s);
            assert(s < sc[q]);
        }
    }
}

proof fn lemma_ring_slots(q: int, p: int, ring: int)
    requires
        0 <= q < p,
        p - q < ring,
    ensures
        q % ring != p % ring,
{
    vstd::arithmetic::div_mod::lemma_mod_equivalence(p, q, ring);
    vstd::arithmetic::div_mod::lemma_small_mod((p - q) as nat, ring as nat);
}

impl WindowTracker {
    /// Every score pushed so far, in order.
    pub closed spec fn scores(&self) -> Seq<u64> {
        self.scores@
    }

    pub closed spec fn width(&self) -> nat {
        self.width as nat
    }

    /// First position of the current window.
    pub open spec fn lo(&self) -> int {
        window_lo(self.scores().len() as int, self.width() as int)
    }

    /// Number of positions in the current window.
    pub open spec fn live(&self) -> nat {
        (self.scores().len() - self.lo()) as nat
    }

    pub closed spec fn wf(&self) -> bool {
        let sc = self.scores@;
        let n = self.next as int;
        let lo = window_lo(n, self.width as int);
        let d = self.dq@;
        &&& 1 <= self.width <= self.ring
        &&& self.buffer@.len() == self.ring
        &&& sc.len() == n
        &&& ring_ok(self.buffer@, self.ring as int, sc, lo, n)
        &&& (n > 0 <==> d.len() > 0)
        &&& n > 0 ==> d[d.len() - 1] == n - 1
        &&& queue_ok(sc, lo, n, d)
    }

    /// An empty tracker for windows of `width` positions.
    pub fn new(width: usize) -> (r: Self)
        requires
            width >= 1,
        ensures
            r.wf(),
            r.scores() == Seq::<u64>::empty(),
            r.width() == width,
    {
        let buffer = vec![u64::MAX; width];
        proof {
            reveal(queue_ok);
            reveal(ring_ok);
        }
        WindowTracker {
            ring: width,
            width,
            buffer,
            dq: VecDeque::new(),
            next: 0,
            scores: Ghost(Seq::empty()),
        }
    }

    /// Drops the front of the queue once it falls out of the window that the
    /// next position closes.
    fn evict(&mut self)
        requires
            old(self).wf(),
            old(self).next < usize::MAX,
        ensures
            final(self).buffer == old(self).buffer,
            final(self).ring == old(self).ring,
            final(self).width == old(self).width,
            final(self).next == old(self).next,
            final(self).scores == old(self).scores,
            queue_ok(
                old(self).scores@,
                window_lo(old(self).next + 1, old(self).width as int),
                old(self).next as int,
                final(self).dq@,
            ),
            final(self).dq@.len() > 0 ==> final(self).dq@[final(self).dq@.len() - 1] == old(self).next - 1,
            final(self).dq@.len() == 0 ==> window_lo(old(self).next + 1, old(self).width as int) == old(self).next,
    {
        proof {
            lemma_queue_bounds(self.scores@, window_lo(self.next as int, self.width as int), self.next as int, self.dq@);
        }
        let p = self.next;
        let ghost sc = self.scores@;
        let ghost lo = window_lo(p + 1, self.width as int);
        if self.dq.len() > 0 && p - self.dq[0] >= self.width {
            let ghost d0 = self.dq@;
            self.dq.pop_front();
            proof {
                assert(self.dq@ =~= d0.drop_first());
                lemma_evict_front(sc, lo, p as int, d0);
            }
        } else {
            proof {
                lemma_raise_lo(sc, window_lo(p as int, self.width as int), lo, p as int, self.dq@);
            }
        }
    }

    /// Drops from the back of the queue every position whose score `score`
    /// undercuts.
    fn drop_undercut(&mut self, score: u64)
        requires
            1 <= old(self).width <= old(self).ring,
            old(self).buffer@.len() == old(self).ring,
            old(self).scores@.len() == old(self).next,
            ring_ok(
                old(self).buffer@,
                old(self).ring as int,
                old(self).scores@,
                window_lo(old(self).next + 1, old(self).width as int),
                old(self).next as int,
            ),
            queue_ok(
                old(self).scores@,
                window_lo(old(self).next + 1, old(self).width as int),
                old(self).next as int,
                old(self).dq@,
            ),
            old(self).dq@.len() > 0 ==> old(self).dq@[old(self).dq@.len() - 1] == old(self).next - 1,
            old(self).dq@.len() == 0 ==> window_lo(old(self).next + 1, old(self).width as int) == old(self).next,
        ensures
            final(self).buffer@ == old(self).buffer@,
            final(self).ring == old(self).ring,
            final(self).width == old(self).width,
            final(self).next == old(self).next,
            final(self).scores == old(self).scores,
            queue_ok(
                old(self).scores@,
                window_lo(old(self).next + 1, old(self).width as int),
                old(self).next as int,
                final(self).dq@,
            ),
            undercut_tail(
                old(self).scores@,
                window_lo(old(self).next + 1, old(self).width as int),
                old(self).next as int,
                final(self).dq@,
                score,
            ),
            final(self).dq@.len() > 0 ==> old(self).scores@[final(self).dq@[final(self).dq@.len() - 1] as int] <= score,
    {
        let p = self.next;
        let ghost sc = self.scores@;
        let ghost lo = window_lo(p + 1, self.width as int);
        let ghost w0 = self.width;
        let ghost r0 = self.ring;
        let ghost buf0 = self.buffer@;
        let ghost s0 = self.scores;
        while self.dq.len() > 0 && self.buffer[self.dq[self.dq.len() - 1] % self.ring] > score
            invariant
                self.width == w0,
                self.ring == r0,
                self.buffer@ == buf0,
                self.next == p,
                self.scores == s0,
                s0@ == sc,
                1 <= self.width <= self.ring,
                self.buffer@.len() == self.ring,
                sc.len() == p,
                lo == window_lo(p + 1, self.width as int),
                ring_ok(self.buffer@, self.ring as int, sc, lo, p as int),
                queue_ok(sc, lo, p as int, self.dq@),
                undercut_tail(sc, lo, p as int, self.dq@, score),
            decreases self.dq@.len(),
        {
            let ghost d0 = self.dq@;
            proof {
                let b = d0[d0.len() - 1] as int;
                reveal(queue_ok);
                reveal(ring_ok);
                assert(lo <= b < p);
                assert(self.buffer@[b % (self.ring as int)] == sc[b]);
            }
            self.dq.pop_back();
            proof {
                assert(self.dq@ =~= d0.drop_last());
                lemma_pop_back(sc, lo, p as int, d0, score);
            }
        }
        proof {
            let d = self.dq@;
            if d.len() > 0 {
                let b = d[d.len() - 1] as int;
                reveal(queue_ok);
                reveal(ring_ok);
                assert(lo <= b < p);
                assert(self.buffer@[b % (self.ring as int)] == sc[b]);
            }
        }
    }

    /// Pushes the score of the next position.
    pub fn advance(&mut self, score: u64)
        requires
            old(self).wf(),
            old(self).scores().len() < usize::MAX,
        ensures
            final(self).wf(),
            final(self).scores() == old(self).scores().push(score),
            final(self).width() == old(self).width(),
    {
        let p = self.next;
        let ghost sc = self.scores@;
        let ghost lo = window_lo(p + 1, self.width as int);
        proof {
            reveal(ring_ok);
        }
        self.evict();
        self.drop_undercut(score);
        proof {
            lemma_push(sc, lo, p as int, self.dq@, score);
        }
        self.dq.push_back(p);
        let slot = p % self.ring;
        self.buffer.set(slot, score);
        self.next = p + 1;
        self.scores = Ghost(sc.push(score));
        proof {
            let t = self.scores@;
            let ring = self.ring as int;
            reveal(ring_ok);
            assert forall|q: int| lo <= q < p + 1 implies self.buffer@[q % ring] == #[trigger] t[q] by {
                if q < p {
                    lemma_ring_slots(q, p as int, ring);
                }
            }
        }
    }

    /// Position of the leftmost minimal score in the current window.
    pub fn current_minimum(&self) -> (r: usize)
        requires
            self.wf(),
            self.scores().len() > 0,
        ensures
            r == min_pos(self.scores(), self.lo(), self.live()),
    {
        proof {
            reveal(queue_ok);
            let sc = self.scores@;
            let d = self.dq@;
            assert(is_leftmost_min(sc, self.lo(), self.live(), d[0] as int)) by {
                assert forall|q: int| self.lo() <= q < self.lo() + self.live() implies sc[d[0] as int] <= #[trigger] sc[q] by {
                    if q > d[0] {
                        assert(0 < d.len() && d[0] < q < self.next);
                    }
                }
            }
            lemma_min_pos_is(sc, self.lo(), self.live(), d[0] as int);
        }
        self.dq[0]
    }

    /// Whether the minimal score of the current window occurs more than once.
    pub fn is_tied(&self) -> (r: bool)
        requires
            self.wf(),
            self.scores().len() > 0,
        ensures
            r == is_tied(self.scores(), self.lo(), self.live()),
    {
        let m = self.current_minimum();
        let ghost sc = self.scores@;
        let ghost d = self.dq@;
        let ghost lo = self.lo();
        let ghost len = self.live();
        proof {
            lemma_min_pos(sc, lo, len);
        }
        if self.dq.len() < 2 {
            proof {
                reveal(queue_ok);
                assert forall|q: int| lo <= q < lo + len && q != m implies sc[q] != #[trigger] sc[m as int] by {
                    if q > m {
                        assert(d[d.len() - 1] == m);
                    }
                }
            }
            return false;
        }
        let r = self.buffer[self.dq[1] % self.ring] == self.buffer[self.dq[0] % self.ring];
        proof {
            reveal(ring_ok);
            reveal(queue_ok);
            assert(sc[d[1] as int] == self.buffer@[(d[1] as int) % (self.ring as int)]);
            assert(sc[d[0] as int] == self.buffer@[(d[0] as int) % (self.ring as int)]);
            if r {
                assert(d[1] != m && sc[d[1] as int] == sc[m as int]);
            } else {
                assert forall|q: int| lo <= q < lo + len && q != m implies sc[q] != #[trigger] sc[m as int] by {
                    if q > m {
                        assert(sc[d[0] as int] <= sc[d[1] as int]);
                        if q < d[1] {
                            assert(0 + 1 < d.len() && d[0] < q < d[1]);
                        } else if q > d[1] {
                            assert(1 < d.len() && d[1] < q < self.next);
                        }
                    }
                }
            }
        }
        r
    }
}

} // verus!
