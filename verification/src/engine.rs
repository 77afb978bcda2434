//! The decisions of the alignment engine: which track is decoded, how audio is
//! cut into energy windows, how far apart two signals lie, and what the
//! corrected subtitle file holds.

use vstd::prelude::*;
use vstd::slice::slice_subrange;

use crate::signal;
use crate::subtitle;
use crate::subtitle::SubEntry;
use crate::subtitle_laws;
use crate::text;
use crate::text_facts;

verus! {

/// The sample rate of the audio energy envelope (100 Hz = 10 ms windows).
pub const ENERGY_RATE_HZ: usize = 100;

// ---------------------------------------------------------------------------
// Tracks
// ---------------------------------------------------------------------------

/// What is known of one track of a media file.
#[derive(Debug, Clone, Copy)]
pub struct TrackInfo {
    pub id: u32,
    pub has_codec: bool,
    pub sample_rate: Option<u32>,
    pub has_channels: bool,
}

/// An audio track: its codec, sample rate and channels are known, so that no
/// video or data track is selected by accident.
pub open spec fn is_audio(t: TrackInfo) -> bool {
    t.has_codec && t.sample_rate is Some && t.has_channels
}

/// The position of the first audio track.
pub fn first_audio_track(tracks: &[TrackInfo]) -> (r: Result<usize, String>)
    ensures
        match r {
            Ok(i) => {
                &&& i < tracks@.len()
                &&& is_audio(tracks@[i as int])
                &&& forall|j: int| 0 <= j < i ==> !is_audio(#[trigger] tracks@[j])
            },
            Err(e) => {
                &&& forall|j: int| 0 <= j < tracks@.len() ==> !is_audio(#[trigger] tracks@[j])
                &&& e@ == "No audio track found in file"@
            },
        },
{
    let mut i: usize = 0;
    while i < tracks.len()
        invariant
            i <= tracks@.len(),
            forall|j: int| 0 <= j < i ==> !is_audio(#[trigger] tracks@[j]),
        decreases tracks@.len() - i,
    {
        let t: TrackInfo = tracks[i];
        if t.has_codec && t.sample_rate.is_some() && t.has_channels {
            return Ok(i);
        }
        i += 1;
    }
    Err("No audio track found in file".to_owned())
}

// ---------------------------------------------------------------------------
// Sample buffers
// ---------------------------------------------------------------------------

/// The sample rate and the channel layout of decoded audio. Each channel is a
/// bit of `channels`.
#[derive(Debug, Clone, Copy, PartialEq, Eq, Structural)]
pub struct SignalShape {
    pub rate: u32,
    pub channels: u32,
}

/// How many ones there are among the binary digits of `n`.
pub open spec fn ones(n: int) -> int
    decreases n,
{
    if n <= 0 {
        0
    } else {
        n % 2 + ones(n / 2)
    }
}

/// How many channels the bits `bits` stand for. There are 26 kinds of channel;
/// bits beyond theirs stand for none.
pub open spec fn channels_in(bits: u32) -> int {
    ones(bits as int % 0x0400_0000)
}

/// `symphonia::core::audio::Channels::count`: the number of channels in a
/// channel layout, one for each bit that is set. The layout is made by
/// `Channels::from_bits_truncate`, which keeps the 26 bits that name a channel.
#[verifier::external_body]
fn count_channels(bits: u32) -> (r: usize)
    ensures
        r == channels_in(bits),
{
    symphonia::core::audio::Channels::from_bits_truncate(bits).count()
}

/// The number of channels of decoded audio, and so of samples in a frame.
pub fn channel_count(shape: SignalShape) -> (r: usize)
    ensures
        r == channels_in(shape.channels),
{
    count_channels(shape.channels)
}

/// The buffer that decoded samples are copied into: how many samples it has
/// room for, and the shape that it was made for.
#[derive(Debug, Clone, Copy)]
pub struct SampleStore {
    pub capacity: usize,
    pub shape: SignalShape,
}

/// `frames` frames of shape `shape` can be copied into `store`.
pub open spec fn holds(store: Option<SampleStore>, frames: int, shape: SignalShape) -> bool {
    store matches Some(s) && frames * channels_in(shape.channels) <= s.capacity && s.shape == shape
}

/// Whether a new buffer is needed for `frames` frames: there is none yet, it is
/// too small, or it was made for another shape.
pub fn needs_new_store(store: Option<SampleStore>, frames: usize, shape: SignalShape) -> (r: bool)
    requires
        frames * channels_in(shape.channels) <= usize::MAX,
    ensures
        r == !holds(store, frames as int, shape),
{
    let needed: usize = frames * channel_count(shape);
    match store {
        None => true,
        Some(s) => needed > s.capacity || s.shape != shape,
    }
}

/// There is no negative number of ones.
pub proof fn lemma_ones_nonnegative(n: int)
    ensures
        0 <= ones(n),
    decreases n,
{
    if n > 0 {
        lemma_ones_nonnegative(n / 2);
    }
}

// ---------------------------------------------------------------------------
// Energy windows
// ---------------------------------------------------------------------------

/// The number of frames in an energy window.
pub open spec fn window_frames(sample_rate: int) -> int {
    if sample_rate / 100 > 1 {
        sample_rate / 100
    } else {
        1
    }
}

/// The number of frames in an energy window.
pub fn window_size(sample_rate: u32) -> (r: usize)
    ensures
        r == window_frames(sample_rate as int),
        r >= 1,
{
    let size: usize = sample_rate as usize / ENERGY_RATE_HZ;
    if size > 1 {
        size
    } else {
        1
    }
}

/// How many windows of `size` frames `n` frames fill, a partial one at the end
/// included.
pub open spec fn window_count(n: int, size: int) -> int {
    (n + size - 1) / size
}

/// Where window `k` of `n` frames starts and ends.
pub open spec fn window_at(n: int, size: int, k: int) -> (int, int) {
    (
        k * size,
        if (k + 1) * size < n {
            (k + 1) * size
        } else {
            n
        },
    )
}

/// Window `k` of `n` frames is the last one if and only if it reaches the end.
proof fn lemma_window_step(n: int, size: int, k: int)
    requires
        1 <= size,
        0 <= k,
        k * size < n,
    ensures
        (k + 1) * size == k * size + size,
        (k + 1) * size < n ==> k + 1 < window_count(n, size),
        (k + 1) * size >= n ==> k + 1 == window_count(n, size),
{
    let q = window_count(n, size);
    let r = (n + size - 1) % size;
    assert((k + 1) * size == k * size + size) by (nonlinear_arith);
    assert(n + size - 1 == q * size + r && 0 <= r < size) by (nonlinear_arith)
        requires
            q == (n + size - 1) / size,
            r == (n + size - 1) % size,
            1 <= size,
    ;
    if (k + 1) * size >= n {
        assert(q == k + 1) by (nonlinear_arith)
            requires
                1 <= size,
                k * size < n <= (k + 1) * size,
                n + size - 1 == q * size + r,
                0 <= r < size,
        ;
    } else {
        assert(k + 1 < q) by (nonlinear_arith)
            requires
                1 <= size,
                (k + 1) * size < n,
                n + size - 1 == q * size + r,
                0 <= r < size,
        ;
    }
}

/// No frames fill no window, and any frame starts one.
proof fn lemma_window_none(n: int, size: int)
    requires
        1 <= size,
        0 <= n,
    ensures
        n == 0 ==> window_count(n, size) == 0,
        n > 0 ==> window_count(n, size) > 0,
{
    if n == 0 {
        assert((size - 1) / size == 0) by (nonlinear_arith)
            requires
                1 <= size,
        ;
    } else {
        lemma_window_step(n, size, 0);
    }
}

/// Cuts `n_samples` samples into energy windows: each is the position of its
/// first sample and of the one behind its last.
pub fn energy_windows(n_samples: usize, sample_rate: u32) -> (r: Vec<(usize, usize)>)
    ensures
        r@.len() == window_count(n_samples as int, window_frames(sample_rate as int)),
        forall|k: int|
            0 <= k < r@.len() ==> {
                let w = window_at(n_samples as int, window_frames(sample_rate as int), k);
                (#[trigger] r@[k]).0 == w.0 && r@[k].1 == w.1
            },
{
    let size: usize = window_size(sample_rate);
    let ghost n = n_samples as int;
    let ghost z = size as int;
    let mut out: Vec<(usize, usize)> = Vec::new();
    let mut start: usize = 0;
    proof {
        lemma_window_none(n, z);
        assert(0 * z == 0) by (nonlinear_arith);
    }
    while start < n_samples
        invariant
            n == n_samples,
            z == size,
            z >= 1,
            start <= n,
            start == out@.len() * z || start == n,
            start == n ==> out@.len() == window_count(n, z),
            start < n ==> out@.len() < window_count(n, z),
            forall|k: int|
                0 <= k < out@.len() ==> (#[trigger] out@[k]).0 == window_at(n, z, k).0 && out@[k].1
                    == window_at(n, z, k).1,
        decreases n_samples - start,
    {
        let end: usize = if n_samples - start > size {
            start + size
        } else {
            n_samples
        };
        proof {
            lemma_window_step(n, z, out@.len() as int);
        }
        out.push((start, end));
        start = end;
    }
    out
}

/// The energy window that is being filled while audio streams in.
pub struct EnergyWindow {
    size: usize,
    filled: usize,
    untouched: bool,
    seen: Ghost<int>,
}

impl EnergyWindow {
    /// The number of frames in a window.
    pub closed spec fn size(&self) -> int {
        self.size as int
    }

    /// The number of frames that came in so far.
    pub closed spec fn seen(&self) -> int {
        self.seen@
    }

    /// The window holds the frames that came in since the last one was closed.
    #[verifier::type_invariant]
    spec fn wf(&self) -> bool {
        &&& 1 <= self.size
        &&& self.filled < self.size
        &&& 0 <= self.seen@
        &&& self.untouched == (self.seen@ == 0)
        &&& self.filled == self.seen@ % (self.size as int)
    }

    /// The first window of audio at `sample_rate`.
    pub fn new(sample_rate: u32) -> (r: Self)
        ensures
            r.size() == window_frames(sample_rate as int),
            r.seen() == 0,
    {
        let size: usize = window_size(sample_rate);
        proof {
            assert(0int % (size as int) == 0) by (nonlinear_arith)
                requires
                    size >= 1,
            ;
        }
        EnergyWindow { size, filled: 0, untouched: true, seen: Ghost(0) }
    }

    /// Takes one frame in. The result says whether the window is full with it:
    /// then its energy is due, and the next frame starts a new window.
    pub fn add_frame(&mut self) -> (r: bool)
        ensures
            final(self).size() == old(self).size(),
            final(self).seen() == old(self).seen() + 1,
            r == (final(self).seen() % final(self).size() == 0),
    {
        proof {
            use_type_invariant(&*self);
            let z = self.size as int;
            let n = self.seen@;
            let f = self.filled as int;
            let q = n / z;
            assert(n == q * z + f) by (nonlinear_arith)
                requires
                    q == n / z,
                    f == n % z,
                    1 <= z,
            ;
            if f + 1 == z {
                assert((n + 1) % z == 0) by {
                    assert(n + 1 == (q + 1) * z) by (nonlinear_arith)
                        requires
                            n == q * z + f,
                            f + 1 == z,
                    ;
                    vstd::arithmetic::div_mod::lemma_mod_multiples_basic(q + 1, z);
                }
            } else {
                assert((n + 1) % z == f + 1) by {
                    vstd::arithmetic::div_mod::lemma_fundamental_div_mod_converse(
                        n + 1,
                        z,
                        q,
                        f + 1,
                    );
                }
            }
        }
        let full: bool = self.filled + 1 >= self.size;
        let filled: usize = if full {
            0
        } else {
            self.filled + 1
        };
        *self =
        EnergyWindow { size: self.size, filled, untouched: false, seen: Ghost(self.seen@ + 1) };
        full
    }

    /// Whether no frame came in yet.
    pub fn is_untouched(&self) -> (r: bool)
        ensures
            r == (self.seen() == 0),
    {
        proof {
            use_type_invariant(self);
        }
        self.untouched
    }

    /// Whether a partial window is left at the end of the stream, so that its
    /// energy is due too.
    pub fn has_partial(&self) -> (r: bool)
        ensures
            r == (self.seen() % self.size() != 0),
    {
        proof {
            use_type_invariant(self);
        }
        self.filled > 0
    }
}

/// How many windows a stream of `n` frames closes, the last partial one
/// included: one for each frame that fills a window, and one for what is left.
pub open spec fn windows_closed(n: int, size: int) -> int
    decreases n,
{
    if n <= 0 {
        0
    } else {
        windows_closed(n - 1, size) + if n % size == 0 {
            1int
        } else {
            0int
        }
    }
}

/// Audio that streams in gives as many windows as audio that is cut up whole.
pub proof fn law_streamed_windows(n: int, size: int)
    requires
        0 <= n,
        1 <= size,
    ensures
        windows_closed(n, size) + (if n % size != 0 {
            1int
        } else {
            0int
        }) == window_count(n, size),
{
    lemma_windows_closed(n, size);
    let q = n / size;
    let r = n % size;
    assert(n == q * size + r && 0 <= r < size) by (nonlinear_arith)
        requires
            q == n / size,
            r == n % size,
            1 <= size,
    ;
    if r == 0 {
        vstd::arithmetic::div_mod::lemma_fundamental_div_mod_converse(
            n + size - 1,
            size,
            q,
            size - 1,
        );
    } else {
        assert(n + size - 1 == (q + 1) * size + (r - 1)) by (nonlinear_arith)
            requires
                n == q * size + r,
        ;
        vstd::arithmetic::div_mod::lemma_fundamental_div_mod_converse(
            n + size - 1,
            size,
            q + 1,
            r - 1,
        );
    }
}

/// A window is closed for every `size` frames.
proof fn lemma_windows_closed(n: int, size: int)
    requires
        0 <= n,
        1 <= size,
    ensures
        windows_closed(n, size) == n / size,
    decreases n,
{
    if n == 0 {
        assert(0int / size == 0) by (nonlinear_arith)
            requires
                1 <= size,
        ;
    } else {
        lemma_windows_closed(n - 1, size);
        let q = (n - 1) / size;
        let r = (n - 1) % size;
        assert(n - 1 == q * size + r && 0 <= r < size) by (nonlinear_arith)
            requires
                q == (n - 1) / size,
                r == (n - 1) % size,
                1 <= size,
        ;
        if r + 1 == size {
            assert(n == (q + 1) * size + 0) by (nonlinear_arith)
                requires
                    n - 1 == q * size + r,
                    r + 1 == size,
            ;
            vstd::arithmetic::div_mod::lemma_fundamental_div_mod_converse(n, size, q + 1, 0);
        } else {
            vstd::arithmetic::div_mod::lemma_fundamental_div_mod_converse(n, size, q, r + 1);
        }
    }
}

/// The energy windows of `n` frames follow one another without a gap, from the
/// first frame to the last; all are full but the last, which is not empty.
pub proof fn law_windows_partition(n: int, size: int, k: int)
    requires
        1 <= size,
        0 <= n,
        0 <= k < window_count(n, size),
    ensures
        window_at(n, size, 0).0 == 0,
        window_at(n, size, k).0 < window_at(n, size, k).1 <= window_at(n, size, k).0 + size,
        k + 1 < window_count(n, size) ==> window_at(n, size, k).1 == window_at(n, size, k + 1).0
            == window_at(n, size, k).0 + size,
        k + 1 == window_count(n, size) ==> window_at(n, size, k).1 == n,
{
    let q = window_count(n, size);
    let r = (n + size - 1) % size;
    assert(n + size - 1 == q * size + r && 0 <= r < size) by (nonlinear_arith)
        requires
            q == (n + size - 1) / size,
            r == (n + size - 1) % size,
            1 <= size,
    ;
    assert(k * size < n) by (nonlinear_arith)
        requires
            k < q,
            1 <= size,
            n + size - 1 == q * size + r,
            0 <= r < size,
    ;
    lemma_window_step(n, size, k);
}

/// The windows of a recording that is joined from two are the windows of the
/// first and then those of the second, where the first ends with a full window.
pub proof fn law_windows_join(first: int, second: int, size: int, k: int)
    requires
        1 <= size,
        0 <= first,
        0 <= second,
        first % size == 0,
        0 <= k < window_count(first + second, size),
    ensures
        window_count(first + second, size) == window_count(first, size) + window_count(
            second,
            size,
        ),
        k < window_count(first, size) ==> window_at(first + second, size, k) == window_at(
            first,
            size,
            k,
        ),
        k >= window_count(first, size) ==> window_at(first + second, size, k) == ({
            let w = window_at(second, size, k - window_count(first, size));
            (first + w.0, first + w.1)
        }),
{
    let q = first / size;
    let c = window_count(first, size);
    assert(first == q * size) by (nonlinear_arith)
        requires
            q == first / size,
            first % size == 0,
            1 <= size,
    ;
    vstd::arithmetic::div_mod::lemma_fundamental_div_mod_converse(
        first + size - 1,
        size,
        q,
        size - 1,
    );
    vstd::arithmetic::div_mod::lemma_hoist_over_denominator(second + size - 1, q, size as nat);
    assert(c == q);
    assert(first + second + size - 1 == (second + size - 1) + q * size);
    if k < q {
        assert((k + 1) * size <= q * size) by (nonlinear_arith)
            requires
                k < q,
                1 <= size,
        ;
    } else {
        let j = k - q;
        assert(k * size == q * size + j * size) by (nonlinear_arith)
            requires
                k == q + j,
        ;
        assert((k + 1) * size == q * size + (j + 1) * size) by (nonlinear_arith)
            requires
                k == q + j,
        ;
    }
}

/// Audio that streams in fills the same windows as audio that is cut up whole:
/// frame `f` comes in when window `k` is next to be closed if and only if it
/// lies in window `k`.
pub proof fn law_streamed_frames(n: int, size: int, f: int, k: int)
    requires
        1 <= size,
        0 <= f < n,
        0 <= k < window_count(n, size),
    ensures
        windows_closed(f, size) == k <==> window_at(n, size, k).0 <= f < window_at(n, size, k).1,
{
    lemma_windows_closed(f, size);
    let q = f / size;
    let r = f % size;
    assert(f == q * size + r && 0 <= r < size) by (nonlinear_arith)
        requires
            q == f / size,
            r == f % size,
            1 <= size,
    ;
    assert((k + 1) * size == k * size + size) by (nonlinear_arith);
    if q < k {
        assert(f < k * size) by (nonlinear_arith)
            requires
                q < k,
                f == q * size + r,
                0 <= r < size,
        ;
    } else if q > k {
        assert((k + 1) * size <= f) by (nonlinear_arith)
            requires
                q > k,
                f == q * size + r,
                0 <= r < size,
        ;
    }
}

// ---------------------------------------------------------------------------
// The decoding loop
// ---------------------------------------------------------------------------

/// What came of the last thing that was done with a media stream.
pub enum StreamEvent {
    /// A packet was read.
    Packet { track_id: u32 },
    /// There are no more packets.
    EndOfStream,
    /// The stream goes on in another way.
    ResetRequired,
    /// No packet could be read.
    PacketError(String),
    /// The packet was decoded into `frames` frames, and has room for `capacity`.
    Decoded { frames: usize, capacity: usize, shape: SignalShape },
    /// The packet is damaged; the next one may be sound.
    Damaged,
    /// The packet cannot be decoded.
    DecodeError(String),
}

/// What is done next with a media stream.
pub enum StreamAction {
    /// Read the next packet.
    ReadPacket,
    /// Decode the packet that was read.
    DecodePacket,
    /// Reset the decoder, and read the next packet.
    ResetDecoder,
    /// Copy the decoded frames into the buffer, into a new one where
    /// `new_buffer` says so, take them in one by one, and read the next packet.
    UseFrames { new_buffer: bool },
    /// Stop. Where `partial` says so, the energy of a last window is due.
    Finish { partial: bool },
    /// Give up.
    Abort(String),
}

/// How far the decoding of an audio track has come.
pub struct AudioStream {
    track_id: u32,
    store: Option<SampleStore>,
    window: EnergyWindow,
}

/// What is known of the decoding of an audio track: which track it is, the
/// buffer for its samples, the number of frames in an energy window, and the
/// number of frames that came in.
#[verifier::ext_equal]
pub struct StreamModel {
    pub track: u32,
    pub store: Option<SampleStore>,
    pub size: int,
    pub seen: int,
}

impl StreamModel {
    /// What holds of every stream: a window has a frame at least, and no
    /// negative number of frames came in.
    pub open spec fn wf(self) -> bool {
        1 <= self.size && 0 <= self.seen
    }
}

impl View for AudioStream {
    type V = StreamModel;

    closed spec fn view(&self) -> StreamModel {
        StreamModel {
            track: self.track_id,
            store: self.store,
            size: self.window.size(),
            seen: self.window.seen(),
        }
    }
}

/// The decoding of a track can go on with `event`: no more frames were decoded
/// than there is room for, and their samples can be counted.
pub open spec fn can_take(event: StreamEvent) -> bool {
    event matches StreamEvent::Decoded { frames, capacity, shape } ==> frames <= capacity
        && capacity * channels_in(shape.channels) <= usize::MAX
}

/// The decoding of a track after `event`: the buffer is made anew where the
/// decoded frames do not go into it.
pub open spec fn after_event(m: StreamModel, event: StreamEvent) -> StreamModel {
    match event {
        StreamEvent::Decoded { frames, capacity, shape } => if holds(
            m.store,
            frames as int,
            shape,
        ) {
            m
        } else {
            StreamModel {
                store: Some(
                    SampleStore {
                        capacity: (capacity * channels_in(shape.channels)) as usize,
                        shape,
                    },
                ),
                ..m
            }
        },
        _ => m,
    }
}

/// `action` is what is done about `event`. Packets of other tracks and damaged
/// packets are passed over; the end of the stream is an error where no frame
/// came in.
pub open spec fn answers(m: StreamModel, event: StreamEvent, action: StreamAction) -> bool {
    match event {
        StreamEvent::Packet { track_id } => if track_id == m.track {
            action == StreamAction::DecodePacket
        } else {
            action == StreamAction::ReadPacket
        },
        StreamEvent::EndOfStream => if m.seen == 0 {
            action matches StreamAction::Abort(e) && e@ == "No audio samples decoded from file"@
        } else {
            action == (StreamAction::Finish { partial: m.seen % m.size != 0 })
        },
        StreamEvent::ResetRequired => action == StreamAction::ResetDecoder,
        StreamEvent::PacketError(e) => action matches StreamAction::Abort(msg) && msg@
            == "Packet error: "@ + e@,
        StreamEvent::Decoded { frames, capacity, shape } => action == (StreamAction::UseFrames {
            new_buffer: !holds(m.store, frames as int, shape),
        }),
        StreamEvent::Damaged => action == StreamAction::ReadPacket,
        StreamEvent::DecodeError(e) => action matches StreamAction::Abort(msg) && msg@
            == "Decode error: "@ + e@,
    }
}

impl AudioStream {
    /// The decoding of track `track_id`, before its first packet.
    pub fn new(track_id: u32, sample_rate: u32) -> (r: Self)
        ensures
            r@ == (StreamModel {
                track: track_id,
                store: None,
                size: window_frames(sample_rate as int),
                seen: 0,
            }),
            r@.wf(),
    {
        AudioStream { track_id, store: None, window: EnergyWindow::new(sample_rate) }
    }

    /// Decides what is done about `event`.
    pub fn step(&mut self, event: StreamEvent) -> (r: StreamAction)
        requires
            can_take(event),
        ensures
            final(self)@ == after_event(old(self)@, event),
            answers(old(self)@, event, r),
            final(self)@.wf(),
    {
        proof {
            use_type_invariant(&self.window);
        }
        match event {
            StreamEvent::Packet { track_id } => {
                if track_id == self.track_id {
                    StreamAction::DecodePacket
                } else {
                    StreamAction::ReadPacket
                }
            },
            StreamEvent::EndOfStream => {
                if self.window.is_untouched() {
                    StreamAction::Abort("No audio samples decoded from file".to_owned())
                } else {
                    StreamAction::Finish { partial: self.window.has_partial() }
                }
            },
            StreamEvent::ResetRequired => StreamAction::ResetDecoder,
            StreamEvent::PacketError(e) => StreamAction::Abort(
                text::concat("Packet error: ", e.as_str()),
            ),
            StreamEvent::Decoded { frames, capacity, shape } => {
                proof {
                    lemma_samples_fit(frames as int, capacity as int, shape);
                }
                let new_buffer: bool = needs_new_store(self.store, frames, shape);
                if new_buffer {
                    self.store =
                    Some(SampleStore { capacity: capacity * channel_count(shape), shape });
                }
                StreamAction::UseFrames { new_buffer }
            },
            StreamEvent::Damaged => StreamAction::ReadPacket,
            StreamEvent::DecodeError(e) => StreamAction::Abort(
                text::concat("Decode error: ", e.as_str()),
            ),
        }
    }

    /// Takes one frame in. The result says whether the energy of a window is
    /// due.
    pub fn add_frame(&mut self) -> (r: bool)
        ensures
            final(self)@ == (StreamModel { seen: old(self)@.seen + 1, ..old(self)@ }),
            r == (final(self)@.seen % final(self)@.size == 0),
            final(self)@.wf(),
    {
        let full: bool = self.window.add_frame();
        proof {
            use_type_invariant(&self.window);
        }
        full
    }
}

/// Fewer frames have fewer samples.
proof fn lemma_samples_fit(frames: int, capacity: int, shape: SignalShape)
    requires
        frames <= capacity,
    ensures
        frames * channels_in(shape.channels) <= capacity * channels_in(shape.channels),
{
    let n = channels_in(shape.channels);
    lemma_ones_nonnegative(shape.channels as int % 0x0400_0000);
    assert(frames * n <= capacity * n) by (nonlinear_arith)
        requires
            frames <= capacity,
            0 <= n,
    ;
}

/// Decoded frames always go into the buffer that they are copied into.
pub proof fn law_frames_go_in(m: StreamModel, frames: usize, capacity: usize, shape: SignalShape)
    requires
        can_take(StreamEvent::Decoded { frames, capacity, shape }),
    ensures
        holds(
            after_event(m, StreamEvent::Decoded { frames, capacity, shape }).store,
            frames as int,
            shape,
        ),
{
    lemma_samples_fit(frames as int, capacity as int, shape);
}

/// A buffer that was made for a packet serves every packet of the same shape
/// that has no more frames than the first had room for.
pub proof fn law_buffer_serves_again(
    m: StreamModel,
    frames: usize,
    capacity: usize,
    shape: SignalShape,
    later: StreamEvent,
)
    requires
        can_take(StreamEvent::Decoded { frames, capacity, shape }),
        !holds(m.store, frames as int, shape),
        later matches StreamEvent::Decoded { frames: more, capacity: room, shape: same } && more
            <= capacity && same == shape,
    ensures
        ({
            let n = after_event(m, StreamEvent::Decoded { frames, capacity, shape });
            &&& after_event(n, later) == n
            &&& answers(n, later, StreamAction::UseFrames { new_buffer: false })
        }),
{
    let more = later->Decoded_frames;
    lemma_samples_fit(more as int, capacity as int, shape);
}

/// A stream that ends gives an error if and only if it has no window, and
/// otherwise as many windows as audio that is cut up whole.
pub proof fn law_stream_ends(m: StreamModel, action: StreamAction)
    requires
        m.wf(),
        answers(m, StreamEvent::EndOfStream, action),
    ensures
        action is Abort <==> window_count(m.seen, m.size) == 0,
        action matches StreamAction::Finish { partial } ==> windows_closed(m.seen, m.size) + (
        if partial {
            1int
        } else {
            0int
        }) == window_count(m.seen, m.size),
{
    lemma_window_none(m.seen, m.size);
    law_streamed_windows(m.seen, m.size);
}

// ---------------------------------------------------------------------------
// Correlation
// ---------------------------------------------------------------------------

/// The powers of two.
pub open spec fn is_power_of_two(n: int) -> bool
    decreases n,
{
    n == 1 || (n > 1 && n % 2 == 0 && is_power_of_two(n / 2))
}

/// The length that two signals are padded to before they are correlated: twice
/// the smallest power of two that is no less than either length.
pub fn correlation_length(audio_len: usize, sub_len: usize) -> (r: usize)
    requires
        audio_len <= usize::MAX / 4 + 1,
        sub_len <= usize::MAX / 4 + 1,
    ensures
        r % 2 == 0,
        is_power_of_two(r as int / 2),
        audio_len <= r / 2,
        sub_len <= r / 2,
        r == 2 || r / 4 < audio_len || r / 4 < sub_len,
{
    let longest: usize = if audio_len > sub_len {
        audio_len
    } else {
        sub_len
    };
    let mut p: usize = 1;
    while p < longest
        invariant
            longest <= usize::MAX / 4 + 1,
            1 <= p,
            is_power_of_two(p as int),
            p == 1 || p / 2 < longest,
            p <= usize::MAX / 2,
        decreases 2 * longest - p,
    {
        p = p * 2;
    }
    p * 2
}

/// Two correlation values by which the later one does not lose to the earlier:
/// it is no smaller, or one of the two has no order.
pub open spec fn later_wins(earlier: Option<i32>, later: Option<i32>) -> bool {
    match (earlier, later) {
        (Some(a), Some(b)) => a <= b,
        _ => true,
    }
}

/// The position of the peak of `keys`: each value in turn is held against the
/// best so far.
pub open spec fn peak(keys: Seq<Option<i32>>) -> int
    decreases keys.len(),
{
    if keys.len() <= 1 {
        0
    } else if later_wins(keys[peak(keys.drop_last())], keys.last()) {
        keys.len() - 1
    } else {
        peak(keys.drop_last())
    }
}

/// The signed number of samples for position `at` of a circular correlation of
/// length `n`: the second half stands for negative lags.
pub open spec fn signed_lag(at: int, n: int) -> int {
    if at > n / 2 {
        at - n
    } else {
        at
    }
}

/// The position of the peak of a correlation. A value is given by a number
/// that orders it among the others, or `None` where it has no order.
pub fn peak_index(keys: &[Option<i32>]) -> (r: usize)
    requires
        keys@.len() > 0,
    ensures
        r == peak(keys@),
        r < keys@.len(),
{
    let mut best: usize = 0;
    let mut i: usize = 1;
    proof {
        assert(keys@.take(1).len() == 1);
    }
    while i < keys.len()
        invariant
            1 <= i <= keys@.len(),
            best < i,
            best == peak(keys@.take(i as int)),
        decreases keys@.len() - i,
    {
        proof {
            let now = keys@.take(i + 1);
            assert(now.drop_last() =~= keys@.take(i as int));
            assert(now.last() == keys@[i as int]);
            assert(now[best as int] == keys@[best as int]);
        }
        let wins: bool = match (keys[best], keys[i]) {
            (Some(a), Some(b)) => a <= b,
            _ => true,
        };
        if wins {
            best = i;
        }
        i += 1;
    }
    proof {
        assert(keys@.take(keys@.len() as int) =~= keys@);
    }
    best
}

/// The number that orders a 32-bit floating-point value among others, from the
/// bits of the value: its magnitude with its sign. A value that is no number
/// has no order.
pub open spec fn key_of(bits: u32) -> Option<i32> {
    let magnitude = bits as int % 0x8000_0000;
    if magnitude > 0x7f80_0000 {
        None
    } else if bits as int >= 0x8000_0000 {
        Some(-magnitude as i32)
    } else {
        Some(magnitude as i32)
    }
}

/// The number that orders a 32-bit floating-point value among others, from the
/// bits of the value.
pub fn order_key(bits: u32) -> (r: Option<i32>)
    ensures
        r == key_of(bits),
{
    let magnitude: u32 = bits % 0x8000_0000;
    if magnitude > 0x7f80_0000 {
        None
    } else if bits >= 0x8000_0000 {
        Some(-(magnitude as i32))
    } else {
        Some(magnitude as i32)
    }
}

/// How many samples the audio lies behind the subtitles, from the peak of their
/// circular correlation: positive where the subtitles are early.
pub fn global_lag(keys: &[Option<i32>]) -> (r: isize)
    requires
        0 < keys@.len() <= isize::MAX,
    ensures
        r == signed_lag(peak(keys@), keys@.len() as int),
{
    let n: usize = keys.len();
    let at: usize = peak_index(keys);
    if at > n / 2 {
        at as isize - n as isize
    } else {
        at as isize
    }
}

/// The peak is the last of the largest values, where all of them have an
/// order.
pub proof fn law_peak_is_last_maximum(keys: Seq<Option<i32>>)
    requires
        keys.len() > 0,
        forall|i: int| 0 <= i < keys.len() ==> (#[trigger] keys[i]) is Some,
    ensures
        0 <= peak(keys) < keys.len(),
        forall|i: int| 0 <= i < keys.len() ==> (#[trigger] keys[i])->0 <= keys[peak(keys)]->0,
        forall|i: int|
            peak(keys) < i < keys.len() ==> (#[trigger] keys[i])->0 < keys[peak(keys)]->0,
    decreases keys.len(),
{
    if keys.len() > 1 {
        let front = keys.drop_last();
        assert forall|i: int| 0 <= i < front.len() implies (#[trigger] front[i]) is Some by {
            assert(front[i] == keys[i]);
        }
        law_peak_is_last_maximum(front);
        let p = peak(front);
        assert(keys[p] == front[p]);
        assert forall|i: int| 0 <= i < front.len() implies (#[trigger] keys[i])->0 <= keys[p]->0 by {
            assert(front[i] == keys[i]);
        }
        assert forall|i: int| p < i < front.len() implies (#[trigger] keys[i])->0 < keys[p]->0 by {
            assert(front[i] == keys[i]);
        }
        assert(keys.last() == keys[keys.len() - 1]);
    }
}

/// A lag is at most half the length of the correlation, either way, and is the
/// position of the peak once the circle is closed.
pub proof fn law_lag_in_half(at: int, n: int)
    requires
        0 <= at < n,
    ensures
        -n < 2 * signed_lag(at, n) <= n,
        signed_lag(at, n) >= 0 ==> signed_lag(at, n) == at,
        signed_lag(at, n) < 0 ==> signed_lag(at, n) + n == at,
{
}

/// A correlation read the other way round has the opposite lag, where it has a
/// single peak that is not in the middle.
pub proof fn law_mirrored_lag(keys: Seq<Option<i32>>, mirrored: Seq<Option<i32>>)
    requires
        keys.len() > 0,
        mirrored.len() == keys.len(),
        forall|i: int| 0 <= i < keys.len() ==> (#[trigger] keys[i]) is Some,
        forall|i: int|
            0 <= i < keys.len() ==> #[trigger] mirrored[i] == keys[if i == 0 {
                0
            } else {
                keys.len() - i
            }],
        forall|i: int|
            0 <= i < keys.len() && i != peak(keys) ==> (#[trigger] keys[i])->0
                < keys[peak(keys)]->0,
        2 * peak(keys) != keys.len(),
    ensures
        signed_lag(peak(mirrored), keys.len() as int) == -signed_lag(
            peak(keys),
            keys.len() as int,
        ),
{
    let n = keys.len() as int;
    let p = peak(keys);
    law_peak_is_last_maximum(keys);
    assert forall|i: int| 0 <= i < n implies (#[trigger] mirrored[i]) is Some by {
        assert(keys[if i == 0 {
            0
        } else {
            n - i
        }] is Some);
    }
    law_peak_is_last_maximum(mirrored);
    let m = peak(mirrored);
    let back = if p == 0 {
        0
    } else {
        n - p
    };
    assert(mirrored[back] == keys[p]);
    assert(mirrored[m] == keys[if m == 0 {
        0
    } else {
        n - m
    }]);
}

/// Result bundle of an alignment. `F` is the type of a sample.
#[derive(Debug, Clone)]
pub struct AlignmentResult<F> {
    /// Detected global constant offset in seconds. Positive = subs are ahead
    /// of the audio and will be held back; negative = subs lag.
    pub offset_secs: F,
    /// Normalised audio energy envelope (for display).
    pub audio_energy: Vec<F>,
    /// Binary subtitle timing signal (for display).
    pub sub_signal: Vec<F>,
}

// ---------------------------------------------------------------------------
// Subtitle files
// ---------------------------------------------------------------------------

/// The timing signal of a subtitle file for `length` samples of audio energy.
/// A file without entries is refused.
pub fn timing_signal(content: &str, length: usize) -> (r: Result<Vec<bool>, String>)
    ensures
        match subtitle::srt_reading(content@) {
            subtitle::Reading::Refused(why) => r matches Err(e) && e@ == subtitle::message(why),
            subtitle::Reading::Value(list) => if list.len() == 0 {
                r matches Err(e) && e@ == "No subtitle entries found in file"@
            } else {
                r matches Ok(v) && v@ == signal::expected_signal(
                    list,
                    length as int,
                    ENERGY_RATE_HZ as int,
                )
            },
        },
{
    match subtitle::parse_srt(content) {
        Err(e) => Err(e),
        Ok(entries) => {
            if entries.len() == 0 {
                Err("No subtitle entries found in file".to_owned())
            } else {
                Ok(
                    signal::entries_to_expected_signal(
                        entries.as_slice(),
                        length,
                        ENERGY_RATE_HZ,
                    ),
                )
            }
        },
    }
}

/// Whether every time of `entries` moved by `offset_ms` fits in 64 bits.
fn can_shift(entries: &[SubEntry], offset_ms: i64) -> (r: bool)
    ensures
        r == subtitle::shift_fits(subtitle::cues(entries@), offset_ms as int),
{
    let ghost all = subtitle::cues(entries@);
    let mut i: usize = 0;
    while i < entries.len()
        invariant
            i <= entries@.len(),
            all == subtitle::cues(entries@),
            forall|j: int|
                0 <= j < i ==> subtitle::fits((#[trigger] all[j]).start + offset_ms)
                    && subtitle::fits(all[j].end + offset_ms),
        decreases entries@.len() - i,
    {
        proof {
            assert(all[i as int] == entries@[i as int]@);
        }
        if entries[i].start_ms.checked_add(offset_ms).is_none() || entries[i].end_ms.checked_add(
            offset_ms,
        ).is_none() {
            return false;
        }
        i += 1;
    }
    true
}

/// The subtitle file `content` with the detected offset `offset_ms` applied to
/// every entry: early subtitles, for which it is positive, come later, and late
/// ones sooner. A file whose times cannot be moved so far is refused.
pub fn resync(content: &str, offset_ms: i64) -> (r: Result<String, String>)
    ensures
        match subtitle::srt_reading(content@) {
            subtitle::Reading::Refused(why) => r matches Err(e) && e@ == subtitle::message(why),
            subtitle::Reading::Value(list) => if subtitle::shift_fits(list, offset_ms as int) {
                r matches Ok(out) && out@ == subtitle::srt_text(
                    subtitle::shifted(list, offset_ms as int),
                )
            } else {
                r matches Err(e) && e@ == "Offset out of range"@
            },
        },
{
    match subtitle::parse_srt(content) {
        Err(e) => Err(e),
        Ok(entries) => {
            if can_shift(entries.as_slice(), offset_ms) {
                let moved: Vec<SubEntry> = subtitle::apply_offset(entries.as_slice(), offset_ms);
                Ok(subtitle::write_srt(moved.as_slice()))
            } else {
                Err("Offset out of range".to_owned())
            }
        },
    }
}

/// Reading the corrected file gives the entries that were read before, moved by
/// the offset, where each of their texts stands in a block as it is.
#[verifier::rlimit(40)]
pub proof fn law_resync_moves_entries(list: Seq<subtitle::Cue>, offset: int)
    requires
        list.len() <= usize::MAX,
        subtitle_laws::writable(list),
        subtitle::shift_fits(list, offset),
    ensures
        subtitle::srt_reading(subtitle::srt_text(subtitle::shifted(list, offset)))
            == subtitle::Reading::Value(
            Seq::new(
                list.len(),
                |i: int|
                    subtitle::Cue {
                        index: i + 1,
                        start: subtitle::clamped(list[i].start + offset),
                        end: subtitle::clamped(list[i].end + offset),
                        text: list[i].text,
                    },
            ),
        ),
{
    let moved = subtitle::shifted(list, offset);
    assert forall|i: int| 0 <= i < moved.len() implies subtitle_laws::stands_in_block(
        (#[trigger] moved[i]).text,
    ) by {
        assert(subtitle_laws::stands_in_block(list[i].text));
    }
    assert forall|i: int| 0 <= i < moved.len() implies (#[trigger] moved[i]).start <= i64::MAX
        && moved[i].end <= i64::MAX by {
        assert(subtitle::fits(list[i].start + offset));
    }
    subtitle_laws::law_srt_round_trip(moved);
    let want = Seq::new(
        list.len(),
        |i: int|
            subtitle::Cue {
                index: i + 1,
                start: subtitle::clamped(list[i].start + offset),
                end: subtitle::clamped(list[i].end + offset),
                text: list[i].text,
            },
    );
    assert(subtitle_laws::renumbered(moved) =~= want);
}

/// A file name without its extension. A full stop at the very start belongs to
/// the name.
pub open spec fn file_stem(name: Seq<char>) -> Seq<char> {
    match text::last_position(name, '.') {
        Some(k) => if k > 0 {
            name.take(k)
        } else {
            name
        },
        None => name,
    }
}

/// The extension of a file name, empty where it has none.
pub open spec fn file_extension(name: Seq<char>) -> Seq<char> {
    match text::last_position(name, '.') {
        Some(k) => if k > 0 {
            name.skip(k + 1)
        } else {
            Seq::empty()
        },
        None => Seq::empty(),
    }
}

/// The name of the output file for the input file `name`: `_synced` appended
/// before the extension, or at the end where there is none.
pub open spec fn output_name(name: Seq<char>) -> Seq<char> {
    file_stem(name) + "_synced"@ + name.skip(file_stem(name).len() as int)
}

/// Derive a sensible name for the output file, which lies in the same
/// directory as the input: `_synced` appended before the extension.
pub fn default_output_name(file_name: &str) -> (r: String)
    ensures
        r@ == output_name(file_name@),
{
    let name: Vec<char> = text::chars_of(file_name);
    let size: usize = name.len();
    let stem: usize = match text::rfind(name.as_slice(), '.') {
        Some(k) => if k > 0 {
            k
        } else {
            size
        },
        None => size,
    };
    let mut out: String = text::string_of(slice_subrange(name.as_slice(), 0, stem));
    out.append("_synced");
    let tail: String = text::string_of(slice_subrange(name.as_slice(), stem, size));
    out.append(tail.as_str());
    proof {
        assert(name@.subrange(0, stem as int) =~= file_stem(file_name@));
        assert(name@.subrange(stem as int, size as int) =~= file_name@.skip(stem as int));
    }
    out
}

/// The output file keeps the extension, has `_synced` behind the name, and is
/// never the input file.
pub proof fn law_output_name(name: Seq<char>)
    ensures
        file_stem(output_name(name)) == file_stem(name) + "_synced"@,
        file_extension(output_name(name)) == file_extension(name),
        output_name(name) != name,
{
    let stem = file_stem(name);
    let n = stem.len() as int;
    let out = output_name(name);
    let k = n + 7;
    reveal_strlit("_synced");
    text_facts::lemma_last_position(name, '.');
    text_facts::lemma_last_position(out, '.');
    assert(out.len() == name.len() + 7);
    assert forall|j: int| k <= j < out.len() implies out[j] == name[j - 7] by {}
    assert forall|j: int| 0 <= j < n implies out[j] == name[j] by {}
    if n < name.len() {
        assert(out[k] == '.');
        text_facts::lemma_last_position_is(out, '.', k);
        assert(out.take(k) =~= stem + "_synced"@);
        assert(out.skip(k + 1) =~= name.skip(n + 1));
    } else {
        assert(out =~= stem + "_synced"@);
        match text::last_position(out, '.') {
            Some(at) => {
                assert(at < n);
                assert(name[at] == '.');
            },
            None => {},
        }
    }
}

} // verus!
