//! What the alignment engine promises: which packets are decoded, how long a
//! window is, how correlation values are ordered, and how files are named.

use vstd::prelude::*;

use crate::engine;
use crate::engine::SampleStore;
use crate::engine::SignalShape;
use crate::engine::StreamAction;
use crate::engine::StreamEvent;
use crate::engine::StreamModel;
use crate::engine::TrackInfo;
use crate::text_facts;

verus! {

// ---------------------------------------------------------------------------
// Tracks and channels
// ---------------------------------------------------------------------------

/// A track is taken for audio if and only if nothing of what makes it audio is
/// missing, whatever its number and its sample rate are.
pub proof fn law_audio_track(t: TrackInfo, id: u32, rate: u32)
    ensures
        engine::is_audio(TrackInfo { id, has_codec: true, sample_rate: Some(rate), has_channels: true }),
        !engine::is_audio(TrackInfo { has_codec: false, ..t }),
        !engine::is_audio(TrackInfo { sample_rate: None, ..t }),
        !engine::is_audio(TrackInfo { has_channels: false, ..t }),
{
}

/// Every channel counts for one: the lowest bit adds its own worth to the count
/// of the others.
pub proof fn law_ones(n: int)
    requires
        0 <= n,
    ensures
        engine::ones(0) == 0,
        engine::ones(2 * n) == engine::ones(n),
        engine::ones(2 * n + 1) == engine::ones(n) + 1,
{
}

/// The 26 kinds of channel are counted, and nothing else is.
pub proof fn law_channels(low: int, high: int, bits: u32)
    requires
        0 <= low < 0x0400_0000,
        0 <= high,
        bits == low + high * 0x0400_0000,
    ensures
        engine::channels_in(bits) == engine::ones(low),
{
    assert(bits as int % 0x0400_0000 == low) by {
        vstd::arithmetic::div_mod::lemma_fundamental_div_mod_converse(
            bits as int,
            0x0400_0000,
            high,
            low,
        );
    }
}

// ---------------------------------------------------------------------------
// The decoding loop
// ---------------------------------------------------------------------------

/// Whether a packet is decoded is up to its track alone, however many frames
/// came in before and whatever buffer there is.
pub proof fn law_packet_is_decoded(
    m: StreamModel,
    seen: int,
    store: Option<SampleStore>,
    track_id: u32,
    action: StreamAction,
)
    ensures
        ({
            let event = StreamEvent::Packet { track_id };
            let other = StreamModel { seen, store, ..m };
            &&& engine::can_take(event)
            &&& engine::answers(m, event, action) <==> engine::answers(other, event, action)
            &&& track_id == m.track ==> (engine::answers(m, event, action) <==> action
                == StreamAction::DecodePacket)
            &&& track_id != m.track ==> (engine::answers(m, event, action) <==> action
                == StreamAction::ReadPacket)
            &&& engine::after_event(m, event) == m
        }),
{
}

/// Decoded frames are used, and nothing but the buffer changes. The buffer is
/// kept if and only if it was made for this shape and has room for the samples;
/// a new one is made for this shape, and as large as the packet can be.
pub proof fn law_frames_are_used(
    m: StreamModel,
    seen: int,
    frames: usize,
    capacity: usize,
    shape: SignalShape,
    action: StreamAction,
)
    requires
        frames <= capacity,
        capacity * engine::channels_in(shape.channels) <= usize::MAX,
    ensures
        ({
            let event = StreamEvent::Decoded { frames, capacity, shape };
            let n = engine::after_event(m, event);
            let samples = frames * engine::channels_in(shape.channels);
            let kept = m.store is Some && m.store->0.shape == shape && samples
                <= m.store->0.capacity;
            &&& engine::can_take(event)
            &&& engine::answers(m, event, action) <==> action == (StreamAction::UseFrames {
                new_buffer: !kept,
            })
            &&& n.track == m.track
            &&& n.size == m.size
            &&& n.seen == m.seen
            &&& kept ==> n.store == m.store
            &&& !kept ==> n.store is Some && n.store->0.shape == shape && n.store->0.capacity
                == capacity * engine::channels_in(shape.channels)
            &&& engine::answers(StreamModel { seen, ..m }, event, action) <==> engine::answers(
                m,
                event,
                action,
            )
        }),
{
    lemma_channels_nonnegative(shape.channels);
    let c = engine::channels_in(shape.channels);
    assert(0 <= capacity * c) by (nonlinear_arith)
        requires
            0 <= c,
            0 <= capacity,
    ;
}

/// Frames go into a buffer if and only if it was made for their shape and has
/// room for their samples.
pub proof fn law_buffer_holds(store: SampleStore, frames: int, shape: SignalShape)
    ensures
        !engine::holds(None, frames, shape),
        engine::holds(Some(store), frames, shape) <==> store.shape == shape && frames
            * engine::channels_in(shape.channels) <= store.capacity,
{
}

/// There is no negative number of channels.
proof fn lemma_channels_nonnegative(bits: u32)
    ensures
        0 <= engine::channels_in(bits),
{
    engine::lemma_ones_nonnegative(bits as int % 0x0400_0000);
}

/// Damaged packets are passed over, a reset is passed on, and every error ends
/// the decoding with its own message, at any time and with nothing changed.
pub proof fn law_trouble_is_answered(m: StreamModel, e: String, action: StreamAction)
    ensures
        engine::answers(m, StreamEvent::Damaged, action) <==> action == StreamAction::ReadPacket,
        engine::answers(m, StreamEvent::ResetRequired, action) <==> action
            == StreamAction::ResetDecoder,
        engine::answers(m, StreamEvent::PacketError(e), action) <==> action is Abort
            && action->Abort_0@ == "Packet error: "@ + e@,
        engine::answers(m, StreamEvent::DecodeError(e), action) <==> action is Abort
            && action->Abort_0@ == "Decode error: "@ + e@,
        engine::after_event(m, StreamEvent::Damaged) == m,
        engine::after_event(m, StreamEvent::ResetRequired) == m,
        engine::after_event(m, StreamEvent::PacketError(e)) == m,
        engine::after_event(m, StreamEvent::DecodeError(e)) == m,
        engine::after_event(m, StreamEvent::EndOfStream) == m,
        engine::can_take(StreamEvent::Damaged),
        engine::can_take(StreamEvent::ResetRequired),
        engine::can_take(StreamEvent::PacketError(e)),
        engine::can_take(StreamEvent::DecodeError(e)),
        engine::can_take(StreamEvent::EndOfStream),
{
}

/// The end of the stream is an error if and only if no frame came in, and
/// leaves a partial window if and only if the frames do not fill whole windows.
pub proof fn law_end_of_stream(m: StreamModel, whole: int, left: int, action: StreamAction)
    requires
        1 <= m.size,
        0 <= whole,
        0 <= left < m.size,
        m.seen == whole * m.size + left,
    ensures
        engine::answers(m, StreamEvent::EndOfStream, action) <==> if whole == 0 && left == 0 {
            action is Abort && action->Abort_0@ == "No audio samples decoded from file"@
        } else {
            action == (StreamAction::Finish { partial: left > 0 })
        },
{
    vstd::arithmetic::div_mod::lemma_fundamental_div_mod_converse(m.seen, m.size, whole, left);
    assert(whole > 0 ==> m.seen > 0) by (nonlinear_arith)
        requires
            1 <= m.size,
            0 <= left,
            m.seen == whole * m.size + left,
    ;
    assert(whole == 0 ==> whole * m.size == 0);
}

/// The stream after a packet of track `track_id` was read, where decoding it
/// comes to `outcome`: it is decoded if the stream asks for that, and its frames
/// are taken in if the stream asks for that.
pub open spec fn after_packet(m: StreamModel, track_id: u32, outcome: StreamEvent) -> StreamModel {
    let event = StreamEvent::Packet { track_id };
    let n = engine::after_event(m, event);
    if engine::answers(m, event, StreamAction::DecodePacket) {
        let decoded = engine::after_event(n, outcome);
        match outcome {
            StreamEvent::Decoded { frames, .. } => if engine::answers(
                n,
                outcome,
                StreamAction::UseFrames { new_buffer: true },
            ) || engine::answers(n, outcome, StreamAction::UseFrames { new_buffer: false }) {
                StreamModel { seen: decoded.seen + frames, ..decoded }
            } else {
                decoded
            },
            _ => decoded,
        }
    } else {
        n
    }
}

/// The stream after packets were read one by one.
pub open spec fn after_packets(m: StreamModel, packets: Seq<(u32, StreamEvent)>) -> StreamModel
    decreases packets.len(),
{
    if packets.len() == 0 {
        m
    } else {
        after_packet(
            after_packets(m, packets.drop_last()),
            packets.last().0,
            packets.last().1,
        )
    }
}

/// The number of frames in the sound packets of track `track_id`.
pub open spec fn frames_of(packets: Seq<(u32, StreamEvent)>, track_id: u32) -> int
    decreases packets.len(),
{
    if packets.len() == 0 {
        0
    } else {
        frames_of(packets.drop_last(), track_id) + match packets.last().1 {
            StreamEvent::Decoded { frames, .. } => if packets.last().0 == track_id {
                frames as int
            } else {
                0
            },
            _ => 0,
        }
    }
}

/// Every frame of every sound packet of the track is taken in, and no other,
/// over any run of packets.
pub proof fn law_all_frames_come_in(m: StreamModel, packets: Seq<(u32, StreamEvent)>)
    ensures
        after_packets(m, packets).seen == m.seen + frames_of(packets, m.track),
        after_packets(m, packets).track == m.track,
        after_packets(m, packets).size == m.size,
    decreases packets.len(),
{
    if packets.len() > 0 {
        law_all_frames_come_in(m, packets.drop_last());
    }
}

// ---------------------------------------------------------------------------
// Energy windows
// ---------------------------------------------------------------------------

/// A hundred windows hold no more than a second of audio, and one frame more in
/// each would be too many. Below a hundred frames a second a window is a frame.
pub proof fn law_window_is_ten_milliseconds(sample_rate: int)
    requires
        0 <= sample_rate,
    ensures
        sample_rate >= 100 ==> engine::window_frames(sample_rate) * 100 <= sample_rate < (
        engine::window_frames(sample_rate) + 1) * 100,
        sample_rate < 100 ==> engine::window_frames(sample_rate) == 1,
        engine::ENERGY_RATE_HZ == 100,
{
}

/// Every frame lies in exactly one window.
pub proof fn law_frame_has_a_window(n: int, size: int, f: int, k: int)
    requires
        1 <= size,
        0 <= f < n,
    ensures
        0 <= f / size < engine::window_count(n, size),
        0 <= k < engine::window_count(n, size) ==> (engine::window_at(n, size, k).0 <= f
            < engine::window_at(n, size, k).1 <==> k == f / size),
{
    let q = f / size;
    let r = f % size;
    assert(f == q * size + r && 0 <= r < size && 0 <= q) by (nonlinear_arith)
        requires
            q == f / size,
            r == f % size,
            1 <= size,
            0 <= f,
    ;
    let c = engine::window_count(n, size);
    let d = (n + size - 1) % size;
    assert(n + size - 1 == c * size + d && 0 <= d < size) by (nonlinear_arith)
        requires
            c == (n + size - 1) / size,
            d == (n + size - 1) % size,
            1 <= size,
    ;
    assert(q < c) by (nonlinear_arith)
        requires
            q * size <= f < n,
            n + size - 1 == c * size + d,
            0 <= d < size,
            1 <= size,
    ;
    assert((k + 1) * size == k * size + size) by (nonlinear_arith);
    if q < k {
        assert(f < k * size) by (nonlinear_arith)
            requires
                q < k,
                f == q * size + r,
                0 <= r < size,
        ;
    } else if q > k {
        assert((k + 1) * size <= f) by (nonlinear_arith)
            requires
                q > k,
                f == q * size + r,
                0 <= r < size,
        ;
    }
}

/// No frames make no window.
pub proof fn law_no_frames_no_window(size: int)
    requires
        1 <= size,
    ensures
        engine::window_count(0, size) == 0,
{
    assert((size - 1) / size == 0) by (nonlinear_arith)
        requires
            1 <= size,
    ;
}

// ---------------------------------------------------------------------------
// Correlation
// ---------------------------------------------------------------------------

/// The powers of two are one, and the doubles of powers of two; no odd number
/// but one is among them.
pub proof fn law_powers_of_two(n: int)
    ensures
        engine::is_power_of_two(1),
        n >= 1 ==> (engine::is_power_of_two(2 * n) <==> engine::is_power_of_two(n)),
        n >= 1 ==> !engine::is_power_of_two(2 * n + 1),
        n < 1 ==> !engine::is_power_of_two(n),
{
}

/// Keys order numbers as the numbers are ordered. `a` and `b` are the bits of
/// two values, of which the lower 31 are the magnitude and the highest is the
/// sign; both zeros are the same, and what is no number has no key.
pub proof fn law_keys_order_numbers(a: u32, b: u32)
    ensures
        ({
            let x = a as int % 0x8000_0000;
            let y = b as int % 0x8000_0000;
            let minus_a = a as int >= 0x8000_0000;
            let minus_b = b as int >= 0x8000_0000;
            let p = engine::key_of(a);
            let q = engine::key_of(b);
            &&& p is None <==> x > 0x7f80_0000
            &&& p is Some && q is Some ==> {
                &&& !minus_a && !minus_b ==> (p->0 < q->0 <==> x < y)
                &&& minus_a && minus_b ==> (p->0 < q->0 <==> x > y)
                &&& minus_a && !minus_b ==> (p->0 < q->0 <==> x > 0 || y > 0)
                &&& !minus_a && minus_b ==> !(p->0 < q->0)
                &&& x == 0 && y == 0 ==> p == q
            }
        }),
{
}

/// A value behind others is the peak unless the peak of the others is greater
/// and both have an order; then that one stays.
pub proof fn law_peak_grows(keys: Seq<Option<i32>>, key: Option<i32>)
    requires
        keys.len() > 0,
    ensures
        0 <= engine::peak(keys) < keys.len(),
        engine::peak(seq![key]) == 0,
        ({
            let best = keys[engine::peak(keys)];
            let beaten = best is Some && key is Some && best->0 > key->0;
            engine::peak(keys.push(key)) == if beaten {
                engine::peak(keys)
            } else {
                keys.len() as int
            }
        }),
{
    lemma_peak_inside(keys);
    assert(keys.push(key).drop_last() =~= keys);
    assert(keys.push(key).last() == key);
    assert(keys.push(key)[engine::peak(keys)] == keys[engine::peak(keys)]);
}

/// The peak is one of the values.
proof fn lemma_peak_inside(keys: Seq<Option<i32>>)
    requires
        keys.len() > 0,
    ensures
        0 <= engine::peak(keys) < keys.len(),
    decreases keys.len(),
{
    if keys.len() > 1 {
        lemma_peak_inside(keys.drop_last());
    }
}

// ---------------------------------------------------------------------------
// File names
// ---------------------------------------------------------------------------

/// A name with an extension has `_synced` put before the last full stop.
pub proof fn law_output_before_extension(stem: Seq<char>, ext: Seq<char>)
    requires
        stem.len() > 0,
        forall|i: int| 0 <= i < ext.len() ==> ext[i] != '.',
    ensures
        engine::file_stem(stem + seq!['.'] + ext) == stem,
        engine::file_extension(stem + seq!['.'] + ext) == ext,
        engine::output_name(stem + seq!['.'] + ext) == stem + seq![
            '_',
            's',
            'y',
            'n',
            'c',
            'e',
            'd',
            '.',
        ] + ext,
{
    let name = stem + seq!['.'] + ext;
    let k = stem.len() as int;
    reveal_strlit("_synced");
    assert forall|j: int| k < j < name.len() implies name[j] != '.' by {
        assert(name[j] == ext[j - k - 1]);
    }
    text_facts::lemma_last_position_is(name, '.', k);
    assert(name.take(k) =~= stem);
    assert(name.skip(k + 1) =~= ext);
    assert(engine::output_name(name) =~= stem + seq!['_', 's', 'y', 'n', 'c', 'e', 'd', '.'] + ext);
}

/// A name without an extension has `_synced` put at its end. A full stop at the
/// very start makes no extension.
pub proof fn law_output_without_extension(name: Seq<char>)
    requires
        forall|i: int| 0 < i < name.len() ==> name[i] != '.',
    ensures
        engine::file_stem(name) == name,
        engine::file_extension(name).len() == 0,
        engine::output_name(name) == name + seq!['_', 's', 'y', 'n', 'c', 'e', 'd'],
{
    reveal_strlit("_synced");
    text_facts::lemma_last_position(name, '.');
    assert(engine::output_name(name) =~= name + seq!['_', 's', 'y', 'n', 'c', 'e', 'd']);
}

} // verus!
