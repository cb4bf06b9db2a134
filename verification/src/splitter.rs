//! Split mode dispatcher: selects one of three strategies -- a fixed
//! tempo/note-value grid, a fixed beat count, or detected silence gaps -- and
//! produces the ordered list of output buffers.
//!
//! Every strategy is generic over the sample representation. The per-sample
//! silence classification arrives as a boolean mask with one entry per
//! sample (see [`crate::threshold::silence_mask`]), so the dispatcher itself
//! works on plain values only.

use vstd::arithmetic::div_mod::lemma_basic_div;
use vstd::arithmetic::div_mod::lemma_div_plus_one;
use vstd::arithmetic::div_mod::lemma_fundamental_div_mod;
use vstd::arithmetic::div_mod::lemma_mod_self_0;
use vstd::arithmetic::div_mod::lemma_small_mod;
use vstd::arithmetic::div_mod::lemma_mod_sub_multiples_vanish;
use vstd::prelude::*;

use crate::segmenter::bounds_view;
use crate::segmenter::bufs_view;
use crate::segmenter::copy_ranges;
use crate::segmenter::lemma_bufs_view_push;
use crate::segmenter::lemma_seg_bounds_in_range;
use crate::segmenter::seg_bounds;
use crate::segmenter::segment_bounds;
use crate::segmenter::slices_of;
use crate::slice_util::lemma_prefix_len_of;
use crate::slice_util::lemma_suffix_len_of;
use crate::slice_util::prefix_len;
use crate::slice_util::suffix_len;

verus! {

/// Consecutive non-silent samples required to confirm a sound onset in
/// silence mode; a fixed design constant rather than a user parameter.
pub const SILENCE_HOLD: usize = 16;

/// The strategy by which a buffer is sliced. Durations are in milliseconds,
/// the silence classification itself arrives separately as a boolean mask.
#[derive(Clone, Copy, Debug)]
pub enum SplitMode {
    /// Segments of one `note_value`-th note at `tempo` beats per minute, with
    /// optional leading/trailing silence trimming.
    Tempo {
        tempo: usize,
        note_value: usize,
        trim_leading_silence: bool,
        trim_trailing_silence: bool,
    },
    /// Exactly `beats` segments of equal size, the last absorbing the
    /// remainder.
    Beats { beats: usize },
    /// The sound regions detected between stretches of silence, with attack
    /// padding and release hold given in milliseconds.
    Silence { attack: usize, release: usize },
}

/// The identity predicate over a silence classification entry.
pub open spec fn silent_id() -> spec_fn(bool) -> bool {
    |b: bool| b
}

/// Fixed-length chunks of `s`; the final chunk may be shorter.
pub open spec fn spec_chunks<T>(s: Seq<T>, k: int) -> Seq<Seq<T>>
    recommends
        k >= 1,
    decreases s.len(), 0int when k >= 1
{
    if s.len() == 0 {
        Seq::empty()
    } else if s.len() <= k {
        seq![s]
    } else {
        seq![s.take(k)] + spec_chunks(s.skip(k), k)
    }
}

/// Beats-mode partition of `s` into `k` segments of `beat_len` samples each,
/// the last taking whatever remains.
pub open spec fn spec_beats_from<T>(s: Seq<T>, beat_len: int, k: int) -> Seq<Seq<T>>
    decreases k,
{
    if k <= 0 {
        Seq::empty()
    } else if k == 1 {
        seq![s]
    } else {
        seq![s.take(beat_len)] + spec_beats_from(s.skip(beat_len), beat_len, k - 1)
    }
}

/// Beats-mode partition of `s` into exactly `beats` segments.
pub open spec fn spec_beats<T>(s: Seq<T>, beats: int) -> Seq<Seq<T>>
    recommends
        beats >= 1,
{
    spec_beats_from(s, s.len() as int / beats, beats)
}

/// Index of the first sample kept after optional leading-silence trimming.
pub open spec fn spec_trim_lo(mask: Seq<bool>, lead: bool) -> int {
    if lead {
        prefix_len(mask, silent_id())
    } else {
        0
    }
}

/// One past the last sample kept after optional trailing-silence trimming
/// (applied to what leading trimming left).
pub open spec fn spec_trim_hi(mask: Seq<bool>, lead: bool, trail: bool) -> int {
    if trail {
        mask.len() - suffix_len(mask.subrange(spec_trim_lo(mask, lead), mask.len() as int), silent_id())
    } else {
        mask.len() as int
    }
}

/// The buffer after tempo-mode silence trimming.
pub open spec fn spec_trimmed<T>(s: Seq<T>, mask: Seq<bool>, lead: bool, trail: bool) -> Seq<T> {
    s.subrange(spec_trim_lo(mask, lead), spec_trim_hi(mask, lead, trail))
}

/// What each mode demands of its configuration: positive divisors, a
/// non-degenerate buffer for silence detection, and products that fit the
/// machine word. `rate` is the sample rate, `n` the buffer length.
pub open spec fn split_requires(mode: SplitMode, rate: int, n: int) -> bool {
    match mode {
        SplitMode::Tempo { tempo, note_value, .. } => {
            &&& 1 <= (tempo as int) * (note_value as int)
            &&& (tempo as int) * (note_value as int) <= usize::MAX as int
            &&& rate * 240 <= usize::MAX as int
            &&& rate * 240 / ((tempo as int) * (note_value as int)) >= 1
        },
        SplitMode::Beats { beats } => beats >= 1,
        SplitMode::Silence { attack, release } => {
            &&& n > 0
            &&& rate * attack <= usize::MAX as int
            &&& rate * release <= usize::MAX as int
        },
    }
}

/// The exact output of every mode.
pub open spec fn split_spec<T>(mode: SplitMode, rate: int, s: Seq<T>, mask: Seq<bool>) -> Seq<
    Seq<T>,
> {
    match mode {
        SplitMode::Tempo { tempo, note_value, trim_leading_silence, trim_trailing_silence } => {
            let segment_len = rate * 240 / ((tempo as int) * (note_value as int));
            spec_chunks(
                spec_trimmed(s, mask, trim_leading_silence, trim_trailing_silence),
                segment_len,
            )
        },
        SplitMode::Beats { beats } => spec_beats(s, beats as int),
        SplitMode::Silence { attack, release } => {
            let attack_len = rate * attack / 1000;
            let release_len = rate * release / 1000;
            slices_of(s, seg_bounds(mask, attack_len, SILENCE_HOLD as int, release_len))
        },
    }
}

/// Copies out `samples[lo..hi]` in contiguous chunks of `k` samples; the
/// final chunk may be shorter.
fn chunks_vec<T: Copy>(samples: &[T], lo: usize, hi: usize, k: usize) -> (r: Vec<Vec<T>>)
    requires
        lo <= hi <= samples@.len(),
        k >= 1,
    ensures
        bufs_view(r@) == spec_chunks(samples@.subrange(lo as int, hi as int), k as int),
{
    let mut out: Vec<Vec<T>> = Vec::new();
    let mut pos: usize = lo;
    while pos < hi
        invariant
            lo <= pos <= hi <= samples@.len(),
            k >= 1,
            bufs_view(out@) + spec_chunks(samples@.subrange(pos as int, hi as int), k as int)
                == spec_chunks(samples@.subrange(lo as int, hi as int), k as int),
        decreases hi - pos,
    {
        let end = if hi - pos > k {
            pos + k
        } else {
            hi
        };
        let ghost rem = samples@.subrange(pos as int, hi as int);
        let ghost out0 = bufs_view(out@);
        let chunk = vstd::slice::slice_to_vec(vstd::slice::slice_subrange(samples, pos, end));
        proof {
            lemma_bufs_view_push(out@, chunk);
        }
        out.push(chunk);
        proof {
            let ki = k as int;
            let rest = samples@.subrange(end as int, hi as int);
            if rem.len() <= ki {
                assert(spec_chunks(rem, ki) == seq![rem]);
                assert(chunk@ =~= rem);
                assert(rest =~= Seq::<T>::empty());
                assert(spec_chunks(rest, ki) =~= Seq::<Seq<T>>::empty());
                assert(bufs_view(out@) + spec_chunks(rest, ki) =~= out0 + spec_chunks(rem, ki));
            } else {
                assert(spec_chunks(rem, ki) == seq![rem.take(ki)] + spec_chunks(rem.skip(ki), ki));
                assert(chunk@ =~= rem.take(ki));
                assert(rem.skip(ki) =~= rest);
                assert(bufs_view(out@) + spec_chunks(rest, ki) =~= out0 + spec_chunks(rem, ki));
            }
        }
        pos = end;
    }
    proof {
        assert(samples@.subrange(pos as int, hi as int) =~= Seq::<T>::empty());
        assert(bufs_view(out@) + spec_chunks(samples@.subrange(pos as int, hi as int), k as int)
            =~= bufs_view(out@));
    }
    out
}

/// Copies out exactly `beats` segments of `samples.len() / beats` samples,
/// the last absorbing the remainder.
fn beats_vec<T: Copy>(samples: &[T], beats: usize) -> (r: Vec<Vec<T>>)
    requires
        beats >= 1,
    ensures
        bufs_view(r@) == spec_beats(samples@, beats as int),
{
    let n = samples.len();
    let beat_len = n / beats;
    proof {
        lemma_fundamental_div_mod(n as int, beats as int);
    }
    let mut out: Vec<Vec<T>> = Vec::new();
    let mut index: usize = 0;
    let mut pos: usize = 0;
    proof {
        assert(samples@.skip(0) =~= samples@);
        assert(bufs_view(out@) + spec_beats_from(samples@, beat_len as int, beats as int)
            =~= spec_beats_from(samples@, beat_len as int, beats as int));
    }
    while index < beats
        invariant
            beats >= 1,
            n == samples@.len(),
            beat_len == n as int / beats as int,
            (beats as int) * (beat_len as int) <= n as int,
            0 <= index <= beats,
            index < beats ==> pos == (index as int) * (beat_len as int),
            pos <= n,
            bufs_view(out@) + spec_beats_from(
                samples@.skip(pos as int),
                beat_len as int,
                beats - index,
            ) == spec_beats(samples@, beats as int),
        decreases beats - index,
    {
        let ghost bl = beat_len as int;
        let ghost rem = samples@.skip(pos as int);
        let ghost out0 = bufs_view(out@);
        proof {
            assert((index as int) * bl <= (beats as int) * bl) by (nonlinear_arith)
                requires
                    0 <= index as int <= beats as int,
                    bl >= 0,
            ;
        }
        if index == beats - 1 {
            let chunk = vstd::slice::slice_to_vec(vstd::slice::slice_subrange(samples, pos, n));
            proof {
                lemma_bufs_view_push(out@, chunk);
            }
            out.push(chunk);
            proof {
                assert(spec_beats_from(rem, bl, 1) == seq![rem]);
                assert(chunk@ =~= rem);
                assert(bufs_view(out@) + spec_beats_from(samples@.skip(n as int), bl, 0) =~= out0
                    + spec_beats_from(rem, bl, 1));
            }
            pos = n;
        } else {
            proof {
                assert((index as int + 1) * bl <= (beats as int) * bl) by (nonlinear_arith)
                    requires
                        0 <= index as int + 1 <= beats as int,
                        bl >= 0,
                ;
                assert((index as int + 1) * bl == (index as int) * bl + bl) by (nonlinear_arith);
            }
            let end = pos + beat_len;
            let chunk = vstd::slice::slice_to_vec(vstd::slice::slice_subrange(samples, pos, end));
            proof {
                lemma_bufs_view_push(out@, chunk);
            }
            out.push(chunk);
            proof {
                let m = beats - index;
                assert(spec_beats_from(rem, bl, m as int) == seq![rem.take(bl)] + spec_beats_from(
                    rem.skip(bl),
                    bl,
                    m - 1,
                ));
                assert(chunk@ =~= rem.take(bl));
                assert(rem.skip(bl) =~= samples@.skip(end as int));
                assert(bufs_view(out@) + spec_beats_from(samples@.skip(end as int), bl, m - 1)
                    =~= out0 + spec_beats_from(rem, bl, m as int));
            }
            pos = end;
        }
        index += 1;
    }
    proof {
        assert(spec_beats_from(samples@.skip(pos as int), beat_len as int, 0) =~= Seq::<
            Seq<T>,
        >::empty());
        assert(bufs_view(out@) + spec_beats_from(samples@.skip(pos as int), beat_len as int, 0)
            =~= bufs_view(out@));
    }
    out
}

/// Splits the buffer according to the chosen mode. `silence` classifies each
/// sample of `samples` (true = silent); it drives the optional trimming of
/// tempo mode and the region detection of silence mode, and is ignored by
/// beats mode. Outputs come in playback order.
pub fn split<T: Copy>(
    mode: &SplitMode,
    sampling_rate: u32,
    samples: &[T],
    silence: &[bool],
) -> (r: Vec<Vec<T>>)
    requires
        silence@.len() == samples@.len(),
        split_requires(*mode, sampling_rate as int, samples@.len() as int),
    ensures
        bufs_view(r@) == split_spec(*mode, sampling_rate as int, samples@, silence@),
{
    match *mode {
        SplitMode::Tempo { tempo, note_value, trim_leading_silence, trim_trailing_silence } => {
            let rate = sampling_rate as usize;
            let segment_len = (rate * 240) / (tempo * note_value);
            let n = samples.len();
            let mut lo: usize = 0;
            if trim_leading_silence {
                while lo < n && *vstd::slice::slice_index_get(silence, lo)
                    invariant
                        n == silence@.len(),
                        0 <= lo <= n,
                        forall|i: int| 0 <= i < lo ==> silence@[i],
                    decreases n - lo,
                {
                    lo += 1;
                }
                proof {
                    assert forall|i: int| 0 <= i < lo implies silent_id()(silence@[i]) by {
                        assert(silence@[i]);
                    }
                    lemma_prefix_len_of(silence@, silent_id(), lo as int);
                }
            }
            assert(lo as int == spec_trim_lo(silence@, trim_leading_silence));
            let mut hi: usize = n;
            if trim_trailing_silence {
                while hi > lo && *vstd::slice::slice_index_get(silence, hi - 1)
                    invariant
                        n == silence@.len(),
                        lo <= hi <= n,
                        forall|i: int| hi <= i < n ==> silence@[i],
                    decreases hi,
                {
                    hi -= 1;
                }
                proof {
                    let sub = silence@.subrange(lo as int, n as int);
                    assert forall|i: int| hi - lo <= i < sub.len() implies silent_id()(sub[i]) by {
                        assert(sub[i] == silence@[lo + i]);
                    }
                    if hi > lo {
                        assert(sub[hi - lo - 1] == silence@[hi - 1]);
                    }
                    lemma_suffix_len_of(sub, silent_id(), (hi - lo) as int);
                }
            }
            assert(hi as int == spec_trim_hi(
                silence@,
                trim_leading_silence,
                trim_trailing_silence,
            ));
            chunks_vec(samples, lo, hi, segment_len)
        },
        SplitMode::Beats { beats } => beats_vec(samples, beats),
        SplitMode::Silence { attack, release } => {
            let rate = sampling_rate as usize;
            let attack_len = rate * attack / 1000;
            let release_len = rate * release / 1000;
            let bounds = segment_bounds(silence, attack_len, SILENCE_HOLD, release_len);
            proof {
                lemma_seg_bounds_in_range(
                    silence@,
                    attack_len as int,
                    SILENCE_HOLD as int,
                    release_len as int,
                );
                let segs = seg_bounds(
                    silence@,
                    attack_len as int,
                    SILENCE_HOLD as int,
                    release_len as int,
                );
                assert forall|j: int| 0 <= j < bounds@.len() implies (#[trigger] bounds@[j]).0
                    <= bounds@[j].1 <= samples@.len() by {
                    assert(bounds_view(bounds@)[j] == (bounds@[j].0 as int, bounds@[j].1 as int));
                    assert(0 <= segs[j].0 < segs[j].1 <= silence@.len());
                }
            }
            copy_ranges(samples, &bounds)
        },
    }
}

/// The total number of samples in a list of buffers.
pub open spec fn total_len<T>(bufs: Seq<Seq<T>>) -> int
    decreases bufs.len(),
{
    if bufs.len() == 0 {
        0
    } else {
        bufs[0].len() + total_len(bufs.drop_first())
    }
}

/// With both trim flags disabled, tempo mode chunks the whole buffer: the
/// trimmed sequence is the input itself.
pub proof fn lemma_trim_disabled_is_identity<T>(s: Seq<T>, mask: Seq<bool>)
    requires
        mask.len() == s.len(),
    ensures
        spec_trimmed(s, mask, false, false) == s,
{
    assert(spec_trimmed(s, mask, false, false) =~= s);
}

proof fn lemma_beats_from_cover<T>(s: Seq<T>, bl: int, k: int)
    requires
        k >= 1,
        bl >= 0,
        (k - 1) * bl <= s.len(),
    ensures
        spec_beats_from(s, bl, k).len() == k,
        total_len(spec_beats_from(s, bl, k)) == s.len(),
    decreases k,
{
    if k == 1 {
        assert(total_len(seq![s]) == s.len() + total_len(seq![s].drop_first()));
        assert(seq![s].drop_first() =~= Seq::<Seq<T>>::empty());
    } else {
        assert(bl <= (k - 1) * bl) by (nonlinear_arith)
            requires
                k >= 2,
                bl >= 0,
        ;
        assert((k - 2) * bl == (k - 1) * bl - bl) by (nonlinear_arith);
        lemma_beats_from_cover(s.skip(bl), bl, k - 1);
        let whole = spec_beats_from(s, bl, k);
        let rest = spec_beats_from(s.skip(bl), bl, k - 1);
        assert(whole == seq![s.take(bl)] + rest);
        assert(whole.drop_first() =~= rest);
        assert(total_len(whole) == s.take(bl).len() + total_len(rest));
    }
}

/// Beats mode covers the input exactly: it emits `beats` segments and their
/// lengths sum to the input length, for any positive beat count.
pub proof fn lemma_beats_exact_cover<T>(s: Seq<T>, beats: int)
    requires
        beats >= 1,
    ensures
        spec_beats(s, beats).len() == beats,
        total_len(spec_beats(s, beats)) == s.len(),
{
    let bl = s.len() as int / beats;
    lemma_fundamental_div_mod(s.len() as int, beats);
    assert((beats - 1) * bl == beats * bl - bl) by (nonlinear_arith);
    lemma_beats_from_cover(s, bl, beats);
}

/// Tempo mode with trimming disabled on a non-empty input of length `L` and
/// segment length `k` yields `ceil(L / k)` segments, the last of length
/// `L % k` -- or a full `k` when `L` is an exact multiple.
pub proof fn lemma_chunks_shape<T>(s: Seq<T>, k: int)
    requires
        k >= 1,
    ensures
        spec_chunks(s, k).len() == (s.len() + k - 1) / k,
        s.len() > 0 ==> spec_chunks(s, k).last().len() == (if s.len() as int % k == 0 {
            k
        } else {
            s.len() as int % k
        }),
    decreases s.len(),
{
    let li = s.len() as int;
    if s.len() == 0 {
        lemma_basic_div(k - 1, k);
    } else if li <= k {
        lemma_div_plus_one(li - 1, k);
        lemma_basic_div(li - 1, k);
        if li == k {
            lemma_mod_self_0(k);
        } else {
            lemma_small_mod(s.len(), k as nat);
        }
        assert(spec_chunks(s, k) == seq![s]);
        assert(spec_chunks(s, k).last() == s);
    } else {
        lemma_chunks_shape(s.skip(k), k);
        let rest = spec_chunks(s.skip(k), k);
        assert(spec_chunks(s, k) == seq![s.take(k)] + rest);
        assert(s.skip(k).len() == li - k);
        // rest is non-empty, so the last chunk of the whole is the last of rest
        assert(rest.len() >= 1);
        assert(spec_chunks(s, k).last() == rest.last());
        lemma_div_plus_one(li - 1, k);
        assert((li - k) + k - 1 == li - 1);
        lemma_mod_sub_multiples_vanish(li, k);
    }
}

} // verus!
