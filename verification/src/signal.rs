//! Subtitle timing as a sampled on/off signal.

use vstd::prelude::*;

use crate::subtitle;
use crate::subtitle::SubEntry;

verus! {

/// The time of sample `i`, which is `1000 * i / rate` milliseconds, is no
/// earlier than `ms` milliseconds.
pub open spec fn reached(ms: int, rate: int, i: int) -> bool {
    ms * rate <= 1_000 * i
}

/// `cue` is shown at the time of sample `i`.
pub open spec fn covers(cue: subtitle::Cue, rate: int, i: int) -> bool {
    reached(cue.start, rate, i) && !reached(cue.end, rate, i)
}

/// Some entry is shown at sample `i`.
pub open spec fn is_active(list: Seq<subtitle::Cue>, rate: int, i: int) -> bool {
    exists|k: int| 0 <= k < list.len() && covers(#[trigger] list[k], rate, i)
}

/// The signal of `length` samples for `list`.
pub open spec fn expected_signal(list: Seq<subtitle::Cue>, length: int, rate: int) -> Seq<bool> {
    Seq::new(length as nat, |i: int| is_active(list, rate, i))
}

/// The first sample whose time is no earlier than `ms` milliseconds, or `limit`
/// where that is smaller.
fn sample_index(ms: i64, rate_hz: usize, limit: usize) -> (r: usize)
    ensures
        r <= limit,
        forall|i: int|
            0 <= i < limit ==> (r <= i <==> #[trigger] reached(ms as int, rate_hz as int, i)),
{
    if ms < 0 {
        proof {
            assert(ms * rate_hz <= 0) by (nonlinear_arith)
                requires
                    ms < 0,
                    0 <= rate_hz,
            ;
        }
        return 0;
    }
    proof {
        assert(0 <= ms * rate_hz <= 0x7fff_ffff_ffff_ffff * 0xffff_ffff_ffff_ffff)
            by (nonlinear_arith)
            requires
                0 <= ms <= 0x7fff_ffff_ffff_ffff,
                0 <= rate_hz <= 0xffff_ffff_ffff_ffff,
        ;
    }
    let index: u128 = ((ms as u128) * (rate_hz as u128) + 999) / 1_000;
    if index < limit as u128 {
        index as usize
    } else {
        limit
    }
}

/// Return a binary signal at `rate_hz` (one sample per `1000/rate_hz` ms) in
/// which a sample is set if a subtitle is active at that time. `length` is the
/// number of samples to generate (typically the same length as the audio
/// energy array).
pub fn entries_to_expected_signal(entries: &[SubEntry], length: usize, rate_hz: usize) -> (r: Vec<
    bool,
>)
    ensures
        r@ == expected_signal(subtitle::cues(entries@), length as int, rate_hz as int),
{
    let ghost all = subtitle::cues(entries@);
    let ghost rate = rate_hz as int;
    let mut signal: Vec<bool> = vec![false; length];
    let mut k: usize = 0;
    proof {
        assert(all.take(0).len() == 0);
    }
    while k < entries.len()
        invariant
            k <= entries@.len(),
            all == subtitle::cues(entries@),
            rate == rate_hz,
            signal@.len() == length,
            forall|i: int|
                0 <= i < length ==> #[trigger] signal@[i] == is_active(
                    all.take(k as int),
                    rate,
                    i,
                ),
        decreases entries@.len() - k,
    {
        let ghost before = signal@;
        let ghost cue = all[k as int];
        let start: usize = sample_index(entries[k].start_ms, rate_hz, length);
        let end: usize = sample_index(entries[k].end_ms, rate_hz, length);
        let mut i: usize = start;
        while i < end
            invariant
                start <= i,
                i <= end || i == start,
                end <= length,
                signal@.len() == length == before.len(),
                forall|j: int|
                    0 <= j < length ==> #[trigger] signal@[j] == (before[j] || start <= j < i),
            decreases end - i,
        {
            signal.set(i, true);
            i += 1;
        }
        proof {
            let now = all.take(k + 1);
            assert forall|j: int| 0 <= j < length implies #[trigger] signal@[j] == is_active(
                now,
                rate,
                j,
            ) by {
                assert(signal@[j] == (before[j] || covers(cue, rate, j)));
                if is_active(all.take(k as int), rate, j) {
                    let w = choose|w: int|
                        0 <= w < k && covers(#[trigger] all.take(k as int)[w], rate, j);
                    assert(now[w] == all.take(k as int)[w]);
                }
                if covers(cue, rate, j) {
                    assert(now[k as int] == cue);
                }
                if is_active(now, rate, j) {
                    let w = choose|w: int| 0 <= w < now.len() && covers(#[trigger] now[w], rate, j);
                    if w < k {
                        assert(all.take(k as int)[w] == now[w]);
                    }
                }
            }
        }
        k += 1;
    }
    proof {
        assert(all.take(all.len() as int) =~= all);
        assert(signal@ =~= expected_signal(all, length as int, rate));
    }
    signal
}

// ---------------------------------------------------------------------------
// Laws
// ---------------------------------------------------------------------------

/// A sample is set if and only if some entry, wherever it stands in the list,
/// starts no later than the time of the sample and ends after it.
pub proof fn law_sample_is_set(list: Seq<subtitle::Cue>, length: int, rate: int, i: int)
    requires
        0 <= i < length,
    ensures
        expected_signal(list, length, rate).len() == length,
        expected_signal(list, length, rate)[i] <==> exists|k: int|
            0 <= k < list.len() && (#[trigger] list[k]).start * rate <= 1_000 * i < list[k].end
                * rate,
{
    if expected_signal(list, length, rate)[i] {
        assert(is_active(list, rate, i));
        let k = choose|k: int| 0 <= k < list.len() && covers(#[trigger] list[k], rate, i);
        assert(list[k].start * rate <= 1_000 * i < list[k].end * rate);
    }
    if exists|k: int|
        0 <= k < list.len() && (#[trigger] list[k]).start * rate <= 1_000 * i < list[k].end * rate {
        let k = choose|k: int|
            0 <= k < list.len() && (#[trigger] list[k]).start * rate <= 1_000 * i < list[k].end
                * rate;
        assert(covers(list[k], rate, i));
        assert(is_active(list, rate, i));
    }
}

/// Every entry sets its own samples, wherever it stands in the list.
pub proof fn law_entry_sets_samples(
    before: Seq<subtitle::Cue>,
    cue: subtitle::Cue,
    after: Seq<subtitle::Cue>,
    length: int,
    rate: int,
    i: int,
)
    requires
        0 <= i < length,
        cue.start * rate <= 1_000 * i < cue.end * rate,
    ensures
        expected_signal(before + seq![cue] + after, length, rate)[i],
{
    let list = before + seq![cue] + after;
    assert(list[before.len() as int] == cue);
    law_sample_is_set(list, length, rate, i);
}

/// The signal of two lists put together is set exactly where the signal of one
/// of them is.
pub proof fn law_signals_unite(
    a: Seq<subtitle::Cue>,
    b: Seq<subtitle::Cue>,
    length: int,
    rate: int,
    i: int,
)
    requires
        0 <= i < length,
    ensures
        expected_signal(a + b, length, rate)[i] == (expected_signal(a, length, rate)[i]
            || expected_signal(b, length, rate)[i]),
        !expected_signal(Seq::<subtitle::Cue>::empty(), length, rate)[i],
{
    let list = a + b;
    if is_active(a, rate, i) {
        let k = choose|k: int| 0 <= k < a.len() && covers(#[trigger] a[k], rate, i);
        assert(list[k] == a[k]);
    }
    if is_active(b, rate, i) {
        let k = choose|k: int| 0 <= k < b.len() && covers(#[trigger] b[k], rate, i);
        assert(list[a.len() + k] == b[k]);
    }
    if is_active(list, rate, i) {
        let k = choose|k: int| 0 <= k < list.len() && covers(#[trigger] list[k], rate, i);
        if k < a.len() {
            assert(a[k] == list[k]);
        } else {
            assert(b[k - a.len()] == list[k]);
        }
    }
}

/// Entries moved by a whole number of samples give the same signal, moved by
/// as many samples, from its first sample on.
pub proof fn law_signal_moves(
    list: Seq<subtitle::Cue>,
    rate: int,
    offset: int,
    samples: int,
    i: int,
)
    requires
        0 <= rate,
        offset * rate == samples * 1_000,
        0 <= i + samples,
    ensures
        is_active(subtitle::shifted(list, offset), rate, i + samples) <==> is_active(list, rate, i),
{
    let moved = subtitle::shifted(list, offset);
    assert forall|k: int| 0 <= k < list.len() implies covers(#[trigger] moved[k], rate, i + samples)
        == covers(list[k], rate, i) by {
        lemma_time_moves(list[k].start, rate, offset);
        lemma_time_moves(list[k].end, rate, offset);
    }
    if is_active(list, rate, i) {
        let k = choose|k: int| 0 <= k < list.len() && covers(#[trigger] list[k], rate, i);
        assert(covers(moved[k], rate, i + samples));
    }
    if is_active(moved, rate, i + samples) {
        let k = choose|k: int| 0 <= k < moved.len() && covers(#[trigger] moved[k], rate, i + samples);
        assert(covers(list[k], rate, i));
    }
}

/// A time moves by the offset, and a time before zero is as early as zero.
proof fn lemma_time_moves(ms: int, rate: int, offset: int)
    requires
        0 <= rate,
    ensures
        (ms + offset) * rate == ms * rate + offset * rate,
        ms + offset < 0 ==> (ms + offset) * rate <= 0,
        subtitle::clamped(ms + offset) * rate == if ms + offset < 0 {
            0
        } else {
            ms * rate + offset * rate
        },
{
    assert((ms + offset) * rate == ms * rate + offset * rate) by (nonlinear_arith);
    if ms + offset < 0 {
        assert((ms + offset) * rate <= 0) by (nonlinear_arith)
            requires
                ms + offset < 0,
                0 <= rate,
        ;
        assert(0 * rate == 0) by (nonlinear_arith);
    }
}

} // verus!
