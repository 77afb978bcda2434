//! What an alignment is for: how well subtitles and audio match at a lag, and
//! what correcting the subtitles does to the match.

use vstd::prelude::*;

use crate::engine;
use crate::signal;
use crate::subtitle;

verus! {

// ---------------------------------------------------------------------------
// Correlation
// ---------------------------------------------------------------------------

/// The sum of `f` from `lo` up to but not at `hi`.
pub open spec fn total(f: spec_fn(int) -> int, lo: int, hi: int) -> int
    decreases hi - lo,
{
    if hi <= lo {
        0
    } else {
        total(f, lo, hi - 1) + f(hi - 1)
    }
}

/// The audio energy at sample `i`, which is zero before the start and behind
/// the end.
pub open spec fn energy_at(audio: Seq<int>, i: int) -> int {
    if 0 <= i < audio.len() {
        audio[i]
    } else {
        0
    }
}

/// The signal is set at sample `i`.
pub open spec fn is_set(signal: Seq<bool>, i: int) -> bool {
    0 <= i < signal.len() && signal[i]
}

/// The audio energy at lag `k` behind sample `j`, where the signal is set there.
pub open spec fn matched(audio: Seq<int>, signal: Seq<bool>, k: int) -> spec_fn(int) -> int {
    |j: int|
        if is_set(signal, j) {
            energy_at(audio, j + k)
        } else {
            0
        }
}

/// How well audio and signal match at lag `k`: the sum of the audio energy `k`
/// samples behind each sample of the signal that is set.
pub open spec fn correlation(audio: Seq<int>, signal: Seq<bool>, k: int) -> int {
    total(matched(audio, signal, k), 0, signal.len() as int)
}

/// Audio and signal match at no lag better than at `k`.
pub open spec fn is_best_lag(audio: Seq<int>, signal: Seq<bool>, k: int) -> bool {
    forall|m: int| #[trigger] correlation(audio, signal, m) <= correlation(audio, signal, k)
}

/// Audio and signal match at every other lag less well than at `k`.
pub open spec fn is_only_best_lag(audio: Seq<int>, signal: Seq<bool>, k: int) -> bool {
    forall|m: int|
        m != k ==> #[trigger] correlation(audio, signal, m) < correlation(audio, signal, k)
}

/// `keys` orders the lags of a circular correlation by how well audio and signal
/// match: the key at a position stands for the lag of that position, and of two
/// keys the smaller one stands for no better a match.
pub open spec fn ranks(keys: Seq<Option<i32>>, audio: Seq<int>, signal: Seq<bool>) -> bool {
    let n = keys.len() as int;
    &&& 0 < n
    &&& forall|p: int| 0 <= p < n ==> (#[trigger] keys[p]) is Some
    &&& forall|p: int, q: int|
        0 <= p < n && 0 <= q < n && (#[trigger] keys[p])->0 <= (#[trigger] keys[q])->0
            ==> correlation(audio, signal, engine::signed_lag(p, n)) <= correlation(
            audio,
            signal,
            engine::signed_lag(q, n),
        )
}

/// The correlation of length `n` is long enough that no lag runs into another.
pub open spec fn is_padded(n: int, audio_len: int, signal_len: int) -> bool {
    2 * audio_len <= n && 2 * signal_len <= n
}

/// A signal as audio: one where it is set, and zero elsewhere.
pub open spec fn levels(signal: Seq<bool>) -> Seq<int> {
    signal.map_values(
        |set: bool|
            if set {
                1int
            } else {
                0int
            },
    )
}

// ---------------------------------------------------------------------------
// Sums
// ---------------------------------------------------------------------------

/// Sums of the same numbers are the same, wherever the numbers stand.
proof fn lemma_total_moves(f: spec_fn(int) -> int, g: spec_fn(int) -> int, d: int, lo: int, hi: int)
    requires
        forall|j: int| lo <= j < hi ==> #[trigger] f(j) == g(j + d),
    ensures
        total(f, lo, hi) == total(g, lo + d, hi + d),
    decreases hi - lo,
{
    if lo < hi {
        lemma_total_moves(f, g, d, lo, hi - 1);
        assert(f(hi - 1) == g(hi - 1 + d));
    }
}

/// Zeros on either side add nothing.
proof fn lemma_total_wide(f: spec_fn(int) -> int, n: int, lo: int, hi: int)
    requires
        lo <= 0,
        0 <= n <= hi,
        forall|j: int| !(0 <= j < n) ==> #[trigger] f(j) == 0,
    ensures
        total(f, lo, hi) == total(f, 0, n),
    decreases hi - lo,
{
    if hi > n {
        lemma_total_wide(f, n, lo, hi - 1);
        assert(f(hi - 1) == 0);
    } else {
        lemma_total_front(f, n, lo, hi);
    }
}

/// Zeros in front add nothing.
proof fn lemma_total_front(f: spec_fn(int) -> int, n: int, lo: int, hi: int)
    requires
        lo <= 0,
        hi <= n,
        forall|j: int| !(0 <= j < n) ==> #[trigger] f(j) == 0,
    ensures
        total(f, lo, hi) == total(f, 0, hi),
    decreases hi - lo,
{
    if lo < hi {
        lemma_total_front(f, n, lo, hi - 1);
        if hi <= 0 {
            assert(f(hi - 1) == 0);
        }
    }
}

/// A sum of no smaller numbers is no smaller, and is larger where one of them is.
proof fn lemma_total_less(f: spec_fn(int) -> int, g: spec_fn(int) -> int, lo: int, hi: int, at: int)
    requires
        forall|j: int| lo <= j < hi ==> #[trigger] f(j) <= g(j),
    ensures
        total(f, lo, hi) <= total(g, lo, hi),
        lo <= at < hi && f(at) < g(at) ==> total(f, lo, hi) < total(g, lo, hi),
    decreases hi - lo,
{
    if lo < hi {
        lemma_total_less(f, g, lo, hi - 1, at);
        assert(f(hi - 1) <= g(hi - 1));
    }
}

/// A sum of zeros is zero.
proof fn lemma_total_zero(f: spec_fn(int) -> int, lo: int, hi: int)
    requires
        forall|j: int| lo <= j < hi ==> #[trigger] f(j) == 0,
    ensures
        total(f, lo, hi) == 0,
    decreases hi - lo,
{
    if lo < hi {
        lemma_total_zero(f, lo, hi - 1);
        assert(f(hi - 1) == 0);
    }
}

/// Two sums over a whole signal are the same where the numbers of one are those
/// of the other, moved by `d`.
proof fn lemma_total_shift(f: spec_fn(int) -> int, g: spec_fn(int) -> int, d: int, m: int, n: int)
    requires
        0 <= m,
        0 <= n,
        forall|j: int| !(0 <= j < m) ==> #[trigger] f(j) == 0,
        forall|j: int| !(0 <= j < n) ==> #[trigger] g(j) == 0,
        forall|j: int| #[trigger] f(j) == g(j + d),
    ensures
        total(f, 0, m) == total(g, 0, n),
{
    let reach = m + n + if d < 0 {
        -d
    } else {
        d
    };
    lemma_total_wide(f, m, -reach, reach);
    lemma_total_moves(f, g, d, -reach, reach);
    lemma_total_wide(g, n, -reach + d, reach + d);
}

// ---------------------------------------------------------------------------
// Laws
// ---------------------------------------------------------------------------

/// A signal that is moved by `k` samples, with nothing of it cut off, matches
/// the audio at every lag as well as before at a lag of `k` more.
pub proof fn law_correlation_moves(
    audio: Seq<int>,
    signal: Seq<bool>,
    moved: Seq<bool>,
    k: int,
    m: int,
)
    requires
        forall|j: int| #[trigger] is_set(signal, j) == is_set(moved, j + k),
    ensures
        correlation(audio, moved, m) == correlation(audio, signal, m + k),
{
    let f = matched(audio, signal, m + k);
    let g = matched(audio, moved, m);
    assert forall|j: int| #[trigger] f(j) == g(j + k) by {
        assert(is_set(signal, j) == is_set(moved, j + k));
        assert(j + (m + k) == (j + k) + m);
    }
    lemma_total_shift(f, g, k, signal.len() as int, moved.len() as int);
}

/// Subtitles that are corrected by a lag of `lag` samples are shown at sample
/// `i + lag` where they were shown at sample `i`: where the audio lies.
pub proof fn law_resync_meets_audio(list: Seq<subtitle::Cue>, lag: int, i: int)
    requires
        0 <= i + lag,
    ensures
        signal::is_active(
            subtitle::shifted(list, 10 * lag),
            engine::ENERGY_RATE_HZ as int,
            i + lag,
        ) <==> signal::is_active(list, engine::ENERGY_RATE_HZ as int, i),
{
    signal::law_signal_moves(list, engine::ENERGY_RATE_HZ as int, 10 * lag, lag, i);
}

/// All that is shown of `list` lies within `length` samples, and still does
/// when moved by `lag` samples.
pub open spec fn stays_inside(list: Seq<subtitle::Cue>, length: int, lag: int) -> bool {
    forall|j: int|
        #[trigger] signal::is_active(list, engine::ENERGY_RATE_HZ as int, j) ==> 0 <= j < length
            && 0 <= j + lag < length
}

/// Subtitles whose best lag is `lag`, corrected by it, match the audio best
/// where they are, and match it at every lag as well as before at a lag of
/// `lag` more, where nothing of them is cut off.
pub proof fn law_resync_corrects(audio: Seq<int>, list: Seq<subtitle::Cue>, length: int, lag: int)
    requires
        0 <= length,
        stays_inside(list, length, lag),
    ensures
        ({
            let rate = engine::ENERGY_RATE_HZ as int;
            let before = signal::expected_signal(list, length, rate);
            let after = signal::expected_signal(
                subtitle::shifted(list, 10 * lag),
                length,
                rate,
            );
            &&& forall|m: int|
                #[trigger] correlation(audio, after, m) == correlation(audio, before, m + lag)
            &&& is_best_lag(audio, before, lag) ==> is_best_lag(audio, after, 0)
        }),
{
    let rate = engine::ENERGY_RATE_HZ as int;
    let moved = subtitle::shifted(list, 10 * lag);
    let before = signal::expected_signal(list, length, rate);
    let after = signal::expected_signal(moved, length, rate);
    assert forall|j: int| #[trigger] is_set(before, j) == is_set(after, j + lag) by {
        if 0 <= j + lag {
            law_resync_meets_audio(list, lag, j);
        }
        if is_set(before, j) {
            assert(signal::is_active(list, rate, j));
        }
        if is_set(after, j + lag) {
            assert(signal::is_active(moved, rate, j + lag));
        }
    }
    assert forall|m: int|
        #[trigger] correlation(audio, after, m) == correlation(audio, before, m + lag) by {
        law_correlation_moves(audio, before, after, lag, m);
    }
    if is_best_lag(audio, before, lag) {
        assert forall|m: int|
            #[trigger] correlation(audio, after, m) <= correlation(audio, after, 0) by {
            assert(correlation(audio, after, m) == correlation(audio, before, m + lag));
            assert(correlation(audio, after, 0) == correlation(audio, before, 0 + lag));
        }
    }
}

/// Audio and signal do not match at all at a lag beyond half of a padded
/// correlation.
proof fn lemma_far_lag(audio: Seq<int>, signal: Seq<bool>, n: int, m: int)
    requires
        is_padded(n, audio.len() as int, signal.len() as int),
        2 * m > n || 2 * m <= -n,
    ensures
        correlation(audio, signal, m) == 0,
{
    lemma_total_zero(matched(audio, signal, m), 0, signal.len() as int);
}

/// Audio without negative energy matches no signal worse than not at all.
proof fn lemma_no_negative_match(audio: Seq<int>, signal: Seq<bool>, m: int)
    requires
        forall|i: int| 0 <= i < audio.len() ==> 0 <= #[trigger] audio[i],
    ensures
        0 <= correlation(audio, signal, m),
{
    let zero = |j: int| 0int;
    lemma_total_zero(zero, 0, signal.len() as int);
    lemma_total_less(zero, matched(audio, signal, m), 0, signal.len() as int, 0);
}

/// The lag of the peak of a padded correlation is a best lag, where no energy
/// is negative.
pub proof fn law_lag_is_best(keys: Seq<Option<i32>>, audio: Seq<int>, signal: Seq<bool>)
    requires
        ranks(keys, audio, signal),
        is_padded(keys.len() as int, audio.len() as int, signal.len() as int),
        forall|i: int| 0 <= i < audio.len() ==> 0 <= #[trigger] audio[i],
    ensures
        is_best_lag(
            audio,
            signal,
            engine::signed_lag(engine::peak(keys), keys.len() as int),
        ),
{
    let n = keys.len() as int;
    let p = engine::peak(keys);
    let lag = engine::signed_lag(p, n);
    engine::law_peak_is_last_maximum(keys);
    assert forall|m: int| #[trigger] correlation(audio, signal, m) <= correlation(
        audio,
        signal,
        lag,
    ) by {
        if 2 * m > n || 2 * m <= -n {
            lemma_far_lag(audio, signal, n, m);
            lemma_no_negative_match(audio, signal, lag);
        } else {
            let q = if m < 0 {
                m + n
            } else {
                m
            };
            assert(engine::signed_lag(q, n) == m);
            assert(keys[q]->0 <= keys[p]->0);
        }
    }
}

/// The alignment corrects the subtitles: moved by the lag of the peak, they
/// match the audio best where they are, where nothing of them is cut off.
pub proof fn law_alignment_corrects(
    keys: Seq<Option<i32>>,
    audio: Seq<int>,
    list: Seq<subtitle::Cue>,
)
    requires
        ({
            let length = audio.len() as int;
            let before = signal::expected_signal(list, length, engine::ENERGY_RATE_HZ as int);
            let lag = engine::signed_lag(engine::peak(keys), keys.len() as int);
            &&& ranks(keys, audio, before)
            &&& is_padded(keys.len() as int, length, length)
            &&& stays_inside(list, length, lag)
        }),
        forall|i: int| 0 <= i < audio.len() ==> 0 <= #[trigger] audio[i],
    ensures
        ({
            let lag = engine::signed_lag(engine::peak(keys), keys.len() as int);
            is_best_lag(
                audio,
                signal::expected_signal(
                    subtitle::shifted(list, 10 * lag),
                    audio.len() as int,
                    engine::ENERGY_RATE_HZ as int,
                ),
                0,
            )
        }),
{
    let length = audio.len() as int;
    let before = signal::expected_signal(list, length, engine::ENERGY_RATE_HZ as int);
    let lag = engine::signed_lag(engine::peak(keys), keys.len() as int);
    law_lag_is_best(keys, audio, before);
    law_resync_corrects(audio, list, length, lag);
}

/// Two signals match at a lag as well as the other way round at the opposite
/// lag.
pub proof fn law_swap_correlation(a: Seq<bool>, b: Seq<bool>, k: int)
    ensures
        correlation(levels(a), b, k) == correlation(levels(b), a, -k),
{
    let f = matched(levels(a), b, k);
    let g = matched(levels(b), a, -k);
    assert forall|j: int| #[trigger] f(j) == g(j + k) by {
        assert(j + k + -k == j);
    }
    lemma_total_shift(f, g, k, b.len() as int, a.len() as int);
}

/// Swapping the two signals negates the lag, where they match best at a single
/// lag.
pub proof fn law_swap_negates_lag(
    keys: Seq<Option<i32>>,
    swapped: Seq<Option<i32>>,
    a: Seq<bool>,
    b: Seq<bool>,
    lag: int,
)
    requires
        ranks(keys, levels(a), b),
        ranks(swapped, levels(b), a),
        is_padded(keys.len() as int, a.len() as int, b.len() as int),
        is_padded(swapped.len() as int, a.len() as int, b.len() as int),
        is_only_best_lag(levels(a), b, lag),
    ensures
        engine::signed_lag(engine::peak(keys), keys.len() as int) == lag,
        engine::signed_lag(engine::peak(swapped), swapped.len() as int) == -lag,
{
    let x = engine::signed_lag(engine::peak(keys), keys.len() as int);
    let y = engine::signed_lag(engine::peak(swapped), swapped.len() as int);
    law_lag_is_best(keys, levels(a), b);
    law_lag_is_best(swapped, levels(b), a);
    assert(correlation(levels(a), b, lag) <= correlation(levels(a), b, x));
    assert(x == lag);
    law_swap_correlation(a, b, lag);
    law_swap_correlation(a, b, -y);
    assert(correlation(levels(b), a, -lag) <= correlation(levels(b), a, y));
    assert(-(-y) == y);
}

/// A sample that is set, such that the one `e` further on is not.
proof fn lemma_edge(signal: Seq<bool>, e: int, j: int) -> (at: int)
    requires
        e != 0,
        is_set(signal, j),
    ensures
        is_set(signal, at),
        !is_set(signal, at + e),
    decreases
            if e > 0 {
                signal.len() - j
            } else {
                j
            },
{
    if is_set(signal, j + e) {
        lemma_edge(signal, e, j + e)
    } else {
        j
    }
}

/// Subtitles that are `d` samples early, so that the audio is loud where they
/// are shown but `d` samples later, match the audio best at lag `d` and at no
/// other: the lag is positive if and only if the subtitles are early.
pub proof fn law_early_subtitles(audio: Seq<bool>, subtitles: Seq<bool>, d: int, j: int)
    requires
        is_set(subtitles, j),
        forall|i: int| #[trigger] is_set(subtitles, i) == is_set(audio, i + d),
    ensures
        is_only_best_lag(levels(audio), subtitles, d),
{
    let n = subtitles.len() as int;
    let g = matched(levels(audio), subtitles, d);
    assert forall|m: int| m != d implies #[trigger] correlation(levels(audio), subtitles, m)
        < correlation(levels(audio), subtitles, d) by {
        let f = matched(levels(audio), subtitles, m);
        let at = lemma_edge(subtitles, m - d, j);
        assert(is_set(subtitles, at + (m - d)) == is_set(audio, at + (m - d) + d));
        assert(at + (m - d) + d == at + m);
        assert(is_set(subtitles, at) == is_set(audio, at + d));
        assert forall|i: int| 0 <= i < n implies #[trigger] f(i) <= g(i) by {
            assert(is_set(subtitles, i) == is_set(audio, i + d));
        }
        lemma_total_less(f, g, 0, n, at);
    }
}

} // verus!
