//! Hysteresis segmenter: turns a per-sample boolean silence classification
//! into an ordered list of half-open index ranges covering the sound regions.
//!
//! The machine is in one of two modes. While *skipping* (inside a silent
//! region) it counts consecutive classification misses (non-silent samples);
//! once they reach `hold`, a segment opens `predelay` samples before the
//! current index (clamped to the buffer start). While *taking* (inside a
//! sound region) it counts classification hits (silent samples); once they
//! exceed `delay`, the segment closes before the current index. A buffer that
//! ends while taking emits a final segment up to the end.

use vstd::prelude::*;

verus! {

/// The segmenter's state after some prefix of the classification has been
/// consumed.
pub struct SegState {
    /// Inside a silent region, watching for a sound onset.
    pub skipping: bool,
    /// Consecutive non-silent samples seen while skipping.
    pub misses: int,
    /// Silent samples seen while taking (never reset by a non-silent sample).
    pub hits: int,
    /// Start index of the segment currently open (meaningful while taking).
    pub start: int,
    /// Segments emitted so far, as half-open index ranges.
    pub segs: Seq<(int, int)>,
}

pub open spec fn seg_init(first_silent: bool) -> SegState {
    SegState { skipping: first_silent, misses: 0, hits: 0, start: 0, segs: Seq::empty() }
}

/// A segment opens `predelay` samples before the confirming index, clamped to
/// the buffer start.
pub open spec fn clamped_start(i: int, predelay: int) -> int {
    if i - predelay >= 0 {
        i - predelay
    } else {
        0
    }
}

/// One transition of the segmenter on the classification of sample `i`.
pub open spec fn seg_step(
    st: SegState,
    silent: bool,
    i: int,
    predelay: int,
    hold: int,
    delay: int,
) -> SegState {
    if st.skipping {
        if !silent {
            if st.misses + 1 >= hold {
                SegState {
                    skipping: false,
                    misses: st.misses + 1,
                    hits: 0,
                    start: clamped_start(i, predelay),
                    segs: st.segs,
                }
            } else {
                SegState {
                    skipping: st.skipping,
                    misses: st.misses + 1,
                    hits: st.hits,
                    start: st.start,
                    segs: st.segs,
                }
            }
        } else {
            SegState {
                skipping: st.skipping,
                misses: 0,
                hits: st.hits,
                start: st.start,
                segs: st.segs,
            }
        }
    } else {
        if silent {
            if st.hits + 1 > delay {
                SegState {
                    skipping: true,
                    misses: 0,
                    hits: st.hits + 1,
                    start: st.start,
                    segs: st.segs.push((st.start, i)),
                }
            } else {
                SegState {
                    skipping: st.skipping,
                    misses: st.misses,
                    hits: st.hits + 1,
                    start: st.start,
                    segs: st.segs,
                }
            }
        } else {
            st
        }
    }
}

/// The segmenter's state after consuming the first `n` classifications. The
/// initial mode is skipping exactly when the first sample is silent.
pub open spec fn seg_run(mask: Seq<bool>, n: int, predelay: int, hold: int, delay: int) -> SegState
    decreases n,
{
    if n <= 0 {
        seg_init(mask[0])
    } else {
        seg_step(
            seg_run(mask, n - 1, predelay, hold, delay),
            mask[n - 1],
            n - 1,
            predelay,
            hold,
            delay,
        )
    }
}

/// All segments emitted for a full classification, the trailing one included.
pub open spec fn seg_bounds(mask: Seq<bool>, predelay: int, hold: int, delay: int) -> Seq<
    (int, int),
> {
    let st = seg_run(mask, mask.len() as int, predelay, hold, delay);
    if !st.skipping {
        st.segs.push((st.start, mask.len() as int))
    } else {
        st.segs
    }
}

/// The classification that a spec predicate induces over a sequence.
pub open spec fn mask_of<T>(s: Seq<T>, q: spec_fn(T) -> bool) -> Seq<bool> {
    Seq::new(s.len(), |i: int| q(s[i]))
}

/// Index pairs as mathematical integers.
pub open spec fn bounds_view(bs: Seq<(usize, usize)>) -> Seq<(int, int)> {
    bs.map_values(|b: (usize, usize)| (b.0 as int, b.1 as int))
}

/// The sub-sequences of `s` selected by a list of index ranges.
pub open spec fn slices_of<T>(s: Seq<T>, bs: Seq<(int, int)>) -> Seq<Seq<T>> {
    bs.map_values(|b: (int, int)| s.subrange(b.0, b.1))
}

/// The contents of a list of owned buffers.
pub open spec fn bufs_view<T>(bufs: Seq<Vec<T>>) -> Seq<Seq<T>> {
    bufs.map_values(|v: Vec<T>| v@)
}

pub proof fn lemma_bounds_view_push(bs: Seq<(usize, usize)>, b: (usize, usize))
    ensures
        bounds_view(bs.push(b)) == bounds_view(bs).push((b.0 as int, b.1 as int)),
{
    assert(bounds_view(bs.push(b)) =~= bounds_view(bs).push((b.0 as int, b.1 as int)));
}

pub proof fn lemma_bufs_view_push<T>(bufs: Seq<Vec<T>>, v: Vec<T>)
    ensures
        bufs_view(bufs.push(v)) == bufs_view(bufs).push(v@),
{
    assert(bufs_view(bufs.push(v)) =~= bufs_view(bufs).push(v@));
}

/// Bounds facts that hold of the segmenter's state for any parameters.
pub open spec fn seg_inv_range(mask: Seq<bool>, n: int, st: SegState) -> bool {
    &&& 0 <= st.misses
    &&& 0 <= st.hits
    &&& 0 <= st.start
    &&& (forall|j: int|
        0 <= j < st.segs.len() ==> 0 <= (#[trigger] st.segs[j]).0 < st.segs[j].1 <= n)
    &&& (!st.skipping ==> st.start < n || (n == 0 && st.start == 0 && !mask[0]))
}

pub proof fn lemma_seg_run_range(mask: Seq<bool>, n: int, predelay: int, hold: int, delay: int)
    requires
        mask.len() > 0,
        0 <= n <= mask.len(),
        0 <= predelay,
        0 <= hold,
        0 <= delay,
    ensures
        seg_inv_range(mask, n, seg_run(mask, n, predelay, hold, delay)),
    decreases n,
{
    if n <= 0 {
    } else {
        lemma_seg_run_range(mask, n - 1, predelay, hold, delay);
    }
}

/// Ordering facts; they need the attack padding not to exceed the onset hold
/// (or one sample, whichever is larger).
pub open spec fn seg_inv_order(n: int, st: SegState) -> bool {
    &&& (forall|j: int|
        0 <= j && j + 1 < st.segs.len() ==> (#[trigger] st.segs[j]).1 <= st.segs[j + 1].0)
    &&& (st.skipping && st.segs.len() > 0 ==> st.segs.last().1 + st.misses < n)
    &&& (!st.skipping && st.segs.len() > 0 ==> st.segs.last().1 <= st.start)
}

pub proof fn lemma_seg_run_order(mask: Seq<bool>, n: int, predelay: int, hold: int, delay: int)
    requires
        mask.len() > 0,
        0 <= n <= mask.len(),
        0 <= predelay,
        0 <= hold,
        0 <= delay,
        predelay <= 1 || predelay <= hold,
    ensures
        seg_inv_order(n, seg_run(mask, n, predelay, hold, delay)),
    decreases n,
{
    if n <= 0 {
    } else {
        lemma_seg_run_range(mask, n - 1, predelay, hold, delay);
        lemma_seg_run_order(mask, n - 1, predelay, hold, delay);
        let st = seg_run(mask, n - 1, predelay, hold, delay);
        let st2 = seg_run(mask, n, predelay, hold, delay);
        if st.skipping {
            if !mask[n - 1] && st.misses + 1 >= hold && st.segs.len() > 0 {
                // a sound onset is confirmed at n - 1; the new segment start
                // does not reach back into the last emitted segment
                assert(0 <= st.segs[st.segs.len() - 1].0 < st.segs[st.segs.len() - 1].1);
                assert(st.segs.last().1 >= 1);
                assert(st.segs.last().1 + st.misses < n - 1);
                assert(predelay <= st.misses + 1);
                assert(st.segs.last().1 <= n - 1 - predelay);
                assert(st2.start == clamped_start(n - 1, predelay));
                assert(st2.start >= st.segs.last().1);
            }
        } else {
            if mask[n - 1] && st.hits + 1 > delay {
                // the open segment closes at n - 1
                assert(st2.segs == st.segs.push((st.start, n - 1)));
                assert forall|j: int| 0 <= j && j + 1 < st2.segs.len() implies (
                #[trigger] st2.segs[j]).1 <= st2.segs[j + 1].0 by {
                    if j + 1 < st.segs.len() {
                        assert(st.segs[j].1 <= st.segs[j + 1].0);
                    } else {
                        assert(st2.segs[j] == st.segs.last());
                        assert(st2.segs[j + 1] == (st.start, n - 1));
                    }
                }
                assert(st2.segs.last() == (st.start, n - 1));
            }
        }
    }
}

/// The segments the hysteresis segmenter emits for a non-empty classification
/// are non-empty sub-ranges of `[0, len)`; and as long as the attack padding
/// `predelay` does not exceed the onset hold (or a single sample when the
/// hold is zero), they are non-overlapping and strictly increasing in start
/// index, so together with the dropped gaps they cover `[0, len)` exactly.
pub proof fn lemma_seg_bounds_partition(
    mask: Seq<bool>,
    predelay: int,
    hold: int,
    delay: int,
)
    requires
        mask.len() > 0,
        0 <= predelay,
        0 <= hold,
        0 <= delay,
        predelay <= 1 || predelay <= hold,
    ensures
        forall|j: int|
            0 <= j < seg_bounds(mask, predelay, hold, delay).len() ==> 0 <= (
            #[trigger] seg_bounds(mask, predelay, hold, delay)[j]).0 < seg_bounds(
                mask,
                predelay,
                hold,
                delay,
            )[j].1 <= mask.len(),
        forall|j: int|
            0 <= j && j + 1 < seg_bounds(mask, predelay, hold, delay).len() ==> (
            #[trigger] seg_bounds(mask, predelay, hold, delay)[j]).1 <= seg_bounds(
                mask,
                predelay,
                hold,
                delay,
            )[j + 1].0,
        forall|j: int|
            0 <= j && j + 1 < seg_bounds(mask, predelay, hold, delay).len() ==> (
            #[trigger] seg_bounds(mask, predelay, hold, delay)[j]).0 < seg_bounds(
                mask,
                predelay,
                hold,
                delay,
            )[j + 1].0,
{
    let n = mask.len() as int;
    lemma_seg_run_range(mask, n, predelay, hold, delay);
    lemma_seg_run_order(mask, n, predelay, hold, delay);
    let st = seg_run(mask, n, predelay, hold, delay);
    let segs = seg_bounds(mask, predelay, hold, delay);
    if !st.skipping {
        assert(segs == st.segs.push((st.start, n)));
        assert forall|j: int| 0 <= j < segs.len() implies 0 <= (#[trigger] segs[j]).0 < segs[j].1
            <= mask.len() by {
            if j < st.segs.len() {
                assert(0 <= st.segs[j].0 < st.segs[j].1 <= n);
            } else {
                assert(segs[j] == (st.start, n));
                assert(st.start < n);
            }
        }
        assert forall|j: int| 0 <= j && j + 1 < segs.len() implies (#[trigger] segs[j]).1 <= segs[j
            + 1].0 by {
            if j + 1 < st.segs.len() {
                assert(st.segs[j].1 <= st.segs[j + 1].0);
            } else {
                assert(segs[j] == st.segs.last());
                assert(segs[j + 1] == (st.start, n));
            }
        }
    } else {
        assert(segs == st.segs);
        assert forall|j: int| 0 <= j < segs.len() implies 0 <= (#[trigger] segs[j]).0 < segs[j].1
            <= mask.len() by {
            assert(0 <= st.segs[j].0 < st.segs[j].1 <= n);
        }
        assert forall|j: int| 0 <= j && j + 1 < segs.len() implies (#[trigger] segs[j]).1 <= segs[j
            + 1].0 by {
            assert(st.segs[j].1 <= st.segs[j + 1].0);
        }
    }
    assert forall|j: int| 0 <= j && j + 1 < segs.len() implies (#[trigger] segs[j]).0 < segs[j + 1].0 by {
        assert(segs[j].1 <= segs[j + 1].0);
        assert(segs[j].0 < segs[j].1);
    }
}

/// Bounds validity alone, for any parameters.
pub proof fn lemma_seg_bounds_in_range(mask: Seq<bool>, predelay: int, hold: int, delay: int)
    requires
        mask.len() > 0,
        0 <= predelay,
        0 <= hold,
        0 <= delay,
    ensures
        forall|j: int|
            0 <= j < seg_bounds(mask, predelay, hold, delay).len() ==> 0 <= (
            #[trigger] seg_bounds(mask, predelay, hold, delay)[j]).0 < seg_bounds(
                mask,
                predelay,
                hold,
                delay,
            )[j].1 <= mask.len(),
{
    let n = mask.len() as int;
    lemma_seg_run_range(mask, n, predelay, hold, delay);
    let st = seg_run(mask, n, predelay, hold, delay);
    let segs = seg_bounds(mask, predelay, hold, delay);
    if !st.skipping {
        assert(segs == st.segs.push((st.start, n)));
        assert forall|j: int| 0 <= j < segs.len() implies 0 <= (#[trigger] segs[j]).0 < segs[j].1
            <= mask.len() by {
            if j < st.segs.len() {
                assert(0 <= st.segs[j].0 < st.segs[j].1 <= n);
            } else {
                assert(segs[j] == (st.start, n));
                assert(st.start < n);
            }
        }
    } else {
        assert(segs == st.segs);
        assert forall|j: int| 0 <= j < segs.len() implies 0 <= (#[trigger] segs[j]).0 < segs[j].1
            <= mask.len() by {
            assert(0 <= st.segs[j].0 < st.segs[j].1 <= n);
        }
    }
}

/// Runs the hysteresis state machine over a silence classification and
/// returns the emitted segments as half-open index ranges.
pub fn segment_bounds(mask: &[bool], predelay: usize, hold: usize, delay: usize) -> (r: Vec<
    (usize, usize),
>)
    requires
        mask@.len() > 0,
    ensures
        bounds_view(r@) == seg_bounds(mask@, predelay as int, hold as int, delay as int),
{
    let ghost pd = predelay as int;
    let ghost h = hold as int;
    let ghost d = delay as int;
    let n = mask.len();
    let mut skipping: bool = *vstd::slice::slice_index_get(mask, 0);
    let mut misses: usize = 0;
    let mut hits: usize = 0;
    let mut start: usize = 0;
    let mut out: Vec<(usize, usize)> = Vec::new();
    let mut i: usize = 0;
    assert(bounds_view(out@) =~= seg_run(mask@, 0, pd, h, d).segs);
    while i < n
        invariant
            pd == predelay as int,
            h == hold as int,
            d == delay as int,
            n == mask@.len(),
            0 <= i <= n,
            misses <= i,
            hits <= i,
            start <= i || start == 0,
            seg_run(mask@, i as int, pd, h, d) == (SegState {
                skipping,
                misses: misses as int,
                hits: hits as int,
                start: start as int,
                segs: bounds_view(out@),
            }),
        decreases n - i,
    {
        let ghost st_old = seg_run(mask@, i as int, pd, h, d);
        let silent = *vstd::slice::slice_index_get(mask, i);
        if skipping {
            if !silent {
                misses += 1;
                if misses >= hold {
                    skipping = false;
                    start = if i >= predelay {
                        i - predelay
                    } else {
                        0
                    };
                    hits = 0;
                }
            } else {
                misses = 0;
            }
        } else {
            if silent {
                hits += 1;
                if hits > delay {
                    proof {
                        lemma_bounds_view_push(out@, (start, i));
                    }
                    out.push((start, i));
                    skipping = true;
                    misses = 0;
                }
            }
        }
        proof {
            let st_new = seg_step(st_old, mask@[i as int], i as int, pd, h, d);
            assert(seg_run(mask@, i + 1, pd, h, d) == st_new);
            assert(bounds_view(out@) == st_new.segs);
        }
        i += 1;
    }
    if !skipping {
        proof {
            lemma_bounds_view_push(out@, (start, n));
        }
        out.push((start, n));
    }
    assert(bounds_view(out@) == seg_bounds(mask@, pd, h, d));
    out
}

/// Copies out each index range of `samples` as an owned buffer.
pub fn copy_ranges<T: Copy>(samples: &[T], bounds: &Vec<(usize, usize)>) -> (r: Vec<Vec<T>>)
    requires
        forall|j: int|
            0 <= j < bounds@.len() ==> (#[trigger] bounds@[j]).0 <= bounds@[j].1 <= samples@.len(),
    ensures
        bufs_view(r@) == slices_of(samples@, bounds_view(bounds@)),
{
    let m = bounds.len();
    let mut r: Vec<Vec<T>> = Vec::new();
    let mut j: usize = 0;
    while j < m
        invariant
            m == bounds@.len(),
            0 <= j <= m,
            forall|i: int|
                0 <= i < bounds@.len() ==> (#[trigger] bounds@[i]).0 <= bounds@[i].1
                    <= samples@.len(),
            r@.len() == j,
            forall|i: int|
                0 <= i < j ==> (#[trigger] r@[i])@ == samples@.subrange(
                    bounds@[i].0 as int,
                    bounds@[i].1 as int,
                ),
        decreases m - j,
    {
        let b = bounds[j];
        r.push(vstd::slice::slice_to_vec(vstd::slice::slice_subrange(samples, b.0, b.1)));
        j += 1;
    }
    proof {
        assert(bufs_view(r@) =~= slices_of(samples@, bounds_view(bounds@)));
    }
    r
}

pub trait SkipPredicate<T: Copy>: View<V = Seq<T>> {
    /// Splits the sequence into the sub-slices that the hysteresis segmenter
    /// keeps: `hold` consecutive predicate misses confirm a sound onset
    /// (starting the kept region `predelay` elements earlier, clamped to the
    /// start), and `delay + 1` predicate hits confirm its end.
    fn skip_predicate_with_delay<F: Fn(T) -> bool>(
        &self,
        predicate: F,
        predelay: usize,
        hold: usize,
        delay: usize,
    ) -> (r: Vec<Vec<T>>)
        requires
            self@.len() > 0,
            forall|i: int| 0 <= i < self@.len() ==> call_requires(predicate, (self@[i],)),
        ensures
            exists|mask: Seq<bool>|
                {
                    &&& mask.len() == self@.len()
                    &&& (forall|i: int|
                        0 <= i < mask.len() ==> call_ensures(predicate, (self@[i],), mask[i]))
                    &&& bufs_view(r@) == slices_of(
                        self@,
                        seg_bounds(mask, predelay as int, hold as int, delay as int),
                    )
                },
            forall|q: spec_fn(T) -> bool|
                (forall|x: T, b: bool| call_ensures(predicate, (x,), b) ==> b == q(x))
                    ==> bufs_view(r@) == slices_of(
                    self@,
                    #[trigger] seg_bounds(
                        mask_of(self@, q),
                        predelay as int,
                        hold as int,
                        delay as int,
                    ),
                ),
    ;

    /// The simplified form: no attack padding, a single miss confirms an
    /// onset, the first hit closes the region.
    fn skip_predicate<F: Fn(T) -> bool>(&self, predicate: F) -> (r: Vec<Vec<T>>)
        requires
            self@.len() > 0,
            forall|i: int| 0 <= i < self@.len() ==> call_requires(predicate, (self@[i],)),
        ensures
            exists|mask: Seq<bool>|
                {
                    &&& mask.len() == self@.len()
                    &&& (forall|i: int|
                        0 <= i < mask.len() ==> call_ensures(predicate, (self@[i],), mask[i]))
                    &&& bufs_view(r@) == slices_of(self@, seg_bounds(mask, 0, 1, 0))
                },
            forall|q: spec_fn(T) -> bool|
                (forall|x: T, b: bool| call_ensures(predicate, (x,), b) ==> b == q(x))
                    ==> bufs_view(r@) == slices_of(
                    self@,
                    #[trigger] seg_bounds(mask_of(self@, q), 0, 1, 0),
                ),
    ;
}

impl<T: Copy> SkipPredicate<T> for [T] {
    fn skip_predicate_with_delay<F: Fn(T) -> bool>(
        &self,
        predicate: F,
        predelay: usize,
        hold: usize,
        delay: usize,
    ) -> (r: Vec<Vec<T>>) {
        let n = self.len();
        let mut mask: Vec<bool> = Vec::new();
        let mut i: usize = 0;
        while i < n
            invariant
                n == self@.len(),
                0 <= i <= n,
                forall|j: int| 0 <= j < self@.len() ==> call_requires(predicate, (self@[j],)),
                mask@.len() == i,
                forall|j: int|
                    0 <= j < i ==> call_ensures(predicate, (self@[j],), #[trigger] mask@[j]),
            decreases n - i,
        {
            let x = *vstd::slice::slice_index_get(self, i);
            mask.push(predicate(x));
            i += 1;
        }
        let bounds = segment_bounds(mask.as_slice(), predelay, hold, delay);
        proof {
            lemma_seg_bounds_in_range(mask@, predelay as int, hold as int, delay as int);
            let segs = seg_bounds(mask@, predelay as int, hold as int, delay as int);
            assert forall|j: int| 0 <= j < bounds@.len() implies (#[trigger] bounds@[j]).0
                <= bounds@[j].1 <= self@.len() by {
                assert(bounds_view(bounds@)[j] == (bounds@[j].0 as int, bounds@[j].1 as int));
                assert(0 <= segs[j].0 < segs[j].1 <= mask@.len());
            }
        }
        let r = copy_ranges(self, &bounds);
        assert forall|q: spec_fn(T) -> bool|
            (forall|x: T, b: bool| call_ensures(predicate, (x,), b) ==> b == q(x))
                implies bufs_view(r@) == slices_of(
                self@,
                #[trigger] seg_bounds(
                    mask_of(self@, q),
                    predelay as int,
                    hold as int,
                    delay as int,
                ),
            ) by {
            assert(mask_of(self@, q) =~= mask@);
        }
        r
    }

    fn skip_predicate<F: Fn(T) -> bool>(&self, predicate: F) -> (r: Vec<Vec<T>>) {
        self.skip_predicate_with_delay(predicate, 0, 1, 0)
    }
}

} // verus!
