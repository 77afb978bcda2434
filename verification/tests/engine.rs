use chronosub::engine::{
    channel_count, correlation_length, default_output_name, energy_windows, first_audio_track,
    global_lag, needs_new_store, order_key, peak_index, resync, timing_signal, window_size, AudioStream,
    EnergyWindow, SampleStore, SignalShape, StreamAction, StreamEvent, TrackInfo, ENERGY_RATE_HZ,
};
use chronosub::subtitle::{apply_offset, parse_srt};

const CONTENT: &str = "1\n00:00:01,500 --> 00:00:04,000\nHello\n\n2\n00:00:05,000 --> 00:00:07,500\nBye\n";

#[test]
fn test_default_output_path() {
    let p = std::path::Path::new("/home/user/movie.srt");
    let out = p.with_file_name(default_output_name("movie.srt"));
    assert_eq!(out, std::path::Path::new("/home/user/movie_synced.srt"));
}

#[test]
fn output_names() {
    for (name, out) in [
        ("movie.srt", "movie_synced.srt"),
        ("a.b.c", "a.b_synced.c"),
        ("movie", "movie_synced"),
        (".srt", ".srt_synced"),
        ("dot.", "dot_synced."),
        ("..x", "._synced.x"),
        ("", "_synced"),
        ("film é.SRT", "film é_synced.SRT"),
    ] {
        assert_eq!(default_output_name(name), out);
        assert_ne!(out, name);
        let before = std::path::Path::new(name).extension();
        assert_eq!(std::path::Path::new(out).extension(), before);
    }
}

fn track(id: u32, has_codec: bool, sample_rate: Option<u32>, has_channels: bool) -> TrackInfo {
    TrackInfo { id, has_codec, sample_rate, has_channels }
}

#[test]
fn the_first_audio_track() {
    let video = track(1, true, None, false);
    let data = track(2, false, Some(8_000), true);
    let mute = track(3, true, Some(8_000), false);
    let first = track(4, true, Some(48_000), true);
    let second = track(5, true, Some(44_100), true);
    assert_eq!(first_audio_track(&[video, data, mute, first, second]), Ok(3));
    assert_eq!(first_audio_track(&[second, first]), Ok(0));
    let none = Err("No audio track found in file".to_string());
    assert_eq!(first_audio_track(&[video, data, mute]), none);
    assert_eq!(first_audio_track(&[]), none);
}

fn aborted(action: StreamAction) -> String {
    match action {
        StreamAction::Abort(message) => message,
        _ => panic!("not aborted"),
    }
}

#[test]
fn packets() {
    let mut stream = AudioStream::new(7, 48_000);
    assert!(matches!(stream.step(StreamEvent::Packet { track_id: 7 }), StreamAction::DecodePacket));
    assert!(matches!(stream.step(StreamEvent::Packet { track_id: 8 }), StreamAction::ReadPacket));
    assert!(matches!(stream.step(StreamEvent::ResetRequired), StreamAction::ResetDecoder));
    assert!(matches!(stream.step(StreamEvent::Damaged), StreamAction::ReadPacket));
    assert_eq!(
        aborted(stream.step(StreamEvent::PacketError("torn".to_string()))),
        "Packet error: torn"
    );
    assert_eq!(
        aborted(stream.step(StreamEvent::DecodeError("no codec".to_string()))),
        "Decode error: no codec"
    );
    assert_eq!(
        aborted(stream.step(StreamEvent::EndOfStream)),
        "No audio samples decoded from file"
    );
}

#[test]
fn streams() {
    let shape = SignalShape { rate: 200, channels: 0b11 };
    for frames in [1usize, 2, 3, 7, 8] {
        let mut stream = AudioStream::new(1, 200);
        let mut windows = 0;
        for packet in 0..3 {
            match stream.step(StreamEvent::Decoded { frames, capacity: 8, shape }) {
                StreamAction::UseFrames { new_buffer } => assert_eq!(new_buffer, packet == 0),
                _ => panic!("frames not used"),
            }
            for _ in 0..frames {
                if stream.add_frame() {
                    windows += 1;
                }
            }
        }
        match stream.step(StreamEvent::EndOfStream) {
            StreamAction::Finish { partial } => {
                assert_eq!(partial, frames * 3 % 2 == 1);
                if partial {
                    windows += 1;
                }
            }
            _ => panic!("not finished"),
        }
        assert_eq!(windows, energy_windows(frames * 3, 200).len());
    }
}

#[test]
fn channels() {
    let count = |channels: u32| channel_count(SignalShape { rate: 48_000, channels });
    assert_eq!(count(0), 0);
    assert_eq!(count(0b11), 2);
    assert_eq!(count(0b10_0011_1111), 7);
    assert_eq!(count(0x03ff_ffff), 26);
    assert_eq!(count(0x0400_0000), 0);
    assert_eq!(count(u32::MAX), 26);
    let layout = symphonia::core::audio::Channels::FRONT_LEFT
        | symphonia::core::audio::Channels::FRONT_RIGHT
        | symphonia::core::audio::Channels::LFE1;
    assert_eq!(count(layout.bits()), layout.count());
    assert_eq!(symphonia::core::audio::Channels::all().bits(), 0x03ff_ffff);
}

#[test]
fn sample_stores() {
    let stereo = SignalShape { rate: 48_000, channels: 0b11 };
    let mono = SignalShape { rate: 48_000, channels: 0b1 };
    let slow = SignalShape { rate: 8_000, channels: 0b11 };
    let store = Some(SampleStore { capacity: 200, shape: stereo });
    assert!(needs_new_store(None, 0, stereo));
    assert!(!needs_new_store(store, 100, stereo));
    assert!(needs_new_store(store, 101, stereo));
    assert!(needs_new_store(store, 1, mono));
    assert!(needs_new_store(store, 1, slow));

    let mut stream = AudioStream::new(1, 48_000);
    let mut new_buffer = |frames: usize, capacity: usize, shape: SignalShape| {
        match stream.step(StreamEvent::Decoded { frames, capacity, shape }) {
            StreamAction::UseFrames { new_buffer } => new_buffer,
            _ => panic!("frames not used"),
        }
    };
    assert!(new_buffer(100, 128, stereo));
    assert!(!new_buffer(100, 128, stereo));
    assert!(!new_buffer(128, 500, stereo));
    assert!(new_buffer(129, 500, stereo));
    assert!(!new_buffer(500, 500, stereo));
    assert!(new_buffer(10, 20, mono));
    assert!(new_buffer(10, 20, slow));
    assert!(!new_buffer(20, 20, slow));
}

#[test]
fn window_sizes() {
    assert_eq!(ENERGY_RATE_HZ, 100);
    assert_eq!(window_size(48_000), 480);
    assert_eq!(window_size(44_100), 441);
    assert_eq!(window_size(199), 1);
    assert_eq!(window_size(99), 1);
    assert_eq!(window_size(0), 1);
}

#[test]
fn windows_of_whole_audio() {
    // 4800 samples / (48000/100) = 10 windows
    let windows = energy_windows(4_800, 48_000);
    assert_eq!(windows.len(), 10);
    assert_eq!(windows[0], (0, 480));
    assert_eq!(windows[9], (4_320, 4_800));
    for (n, rate) in [(0, 48_000), (1, 48_000), (479, 48_000), (481, 48_000), (1_000, 700), (5, 0)] {
        let size = window_size(rate);
        let samples: Vec<usize> = (0..n).collect();
        let chunks: Vec<(usize, usize)> =
            samples.chunks(size).map(|c| (c[0], c[c.len() - 1] + 1)).collect();
        assert_eq!(energy_windows(n, rate), chunks);
    }
}

#[test]
fn windows_of_streamed_audio() {
    for (n, rate) in [(0usize, 48_000u32), (1, 48_000), (480, 48_000), (481, 48_000), (999, 700), (4, 1)] {
        let mut window = EnergyWindow::new(rate);
        assert!(window.is_untouched());
        let mut closed = 0;
        for k in 0..n {
            let full = window.add_frame();
            assert!(!window.is_untouched());
            assert_eq!(full, (k + 1) % window_size(rate) == 0);
            if full {
                closed += 1;
            }
        }
        if window.has_partial() {
            closed += 1;
        }
        assert_eq!(closed, energy_windows(n, rate).len());
    }
}

#[test]
fn correlation_lengths() {
    assert_eq!(correlation_length(0, 0), 2);
    assert_eq!(correlation_length(1, 0), 2);
    assert_eq!(correlation_length(2, 1), 4);
    for (a, b) in [(200usize, 200usize), (1_024, 1_024), (1_025, 3), (3, 1_025), (720_000, 720_000)] {
        assert_eq!(correlation_length(a, b), a.max(b).next_power_of_two() * 2);
    }
}

#[test]
fn order_keys() {
    let values = [
        f32::NEG_INFINITY, f32::MIN, -1.5, -f32::MIN_POSITIVE, -1.0e-45, -0.0, 0.0, 1.0e-45, 0.5, 2.0,
        f32::MAX, f32::INFINITY,
    ];
    for x in values {
        for y in values {
            assert_eq!(key(x).cmp(&key(y)), x.partial_cmp(&y).unwrap(), "{x} {y}");
        }
    }
    assert_eq!(order_key(0x7f80_0000), Some(0x7f80_0000));
    assert_eq!(order_key(0xff80_0000), Some(-0x7f80_0000));
    assert_eq!(order_key(0x8000_0000), Some(0));
    for nan in [0x7f80_0001u32, 0x7fff_ffff, 0xff80_0001, 0xffff_ffff, f32::NAN.to_bits()] {
        assert_eq!(order_key(nan), None);
    }
}

fn key(v: f32) -> Option<i32> {
    order_key(v.to_bits())
}

#[test]
fn peaks() {
    let nan = f32::NAN;
    for values in [
        vec![0.0f32],
        vec![1.0, 3.0, 2.0],
        vec![3.0, 1.0, 3.0, 2.0],
        vec![-1.0, -0.5, -2.0],
        vec![0.0, -0.0],
        vec![-0.0, 0.0, -1.0],
        vec![nan, 1.0],
        vec![5.0, nan, 3.0, 1.0],
        vec![5.0, nan],
        vec![f32::NEG_INFINITY, f32::MIN, f32::INFINITY, f32::MAX],
    ] {
        let keys: Vec<Option<i32>> = values.iter().map(|&v| key(v)).collect();
        let want = values
            .iter()
            .enumerate()
            .max_by(|(_, a), (_, b)| a.partial_cmp(b).unwrap_or(std::cmp::Ordering::Equal))
            .unwrap()
            .0;
        assert_eq!(peak_index(&keys), want, "{:?}", values);
    }
    // The last of the largest.
    assert_eq!(peak_index(&[Some(2), Some(9), Some(9), Some(-1)]), 2);
}

#[test]
fn lags() {
    let at = |n: usize, k: usize| {
        let mut keys = vec![Some(0); n];
        keys[k] = Some(1);
        global_lag(&keys)
    };
    assert_eq!(at(8, 0), 0);
    assert_eq!(at(8, 3), 3);
    assert_eq!(at(8, 4), 4);
    assert_eq!(at(8, 5), -3);
    assert_eq!(at(8, 7), -1);
    for n in 1..20usize {
        for k in 0..n {
            let lag = at(n, k);
            assert!(-(n as isize) < 2 * lag && 2 * lag <= n as isize);
            assert_eq!(lag.rem_euclid(n as isize), k as isize);
        }
    }
}

#[test]
fn mirrored_lags() {
    for n in 2..12usize {
        for p in 0..n {
            if 2 * p == n {
                continue;
            }
            let keys: Vec<Option<i32>> = (0..n).map(|i| Some(if i == p { 9 } else { i as i32 % 3 })).collect();
            let mirrored: Vec<Option<i32>> = (0..n).map(|i| keys[(n - i) % n]).collect();
            assert_eq!(global_lag(&mirrored), -global_lag(&keys));
        }
    }
}

/// How well `audio` and `signal` match at lag `k`.
fn correlation(audio: &[i32], signal: &[bool], k: isize) -> i32 {
    let mut sum = 0;
    for (j, &set) in signal.iter().enumerate() {
        let i = j as isize + k;
        if set && 0 <= i && i < audio.len() as isize {
            sum += audio[i as usize];
        }
    }
    sum
}

/// The lag of the best match of `audio` and `signal`.
fn lag_of(audio: &[i32], signal: &[bool]) -> isize {
    let n = correlation_length(audio.len(), signal.len());
    let keys: Vec<Option<i32>> = (0..n)
        .map(|p| {
            let k = if p > n / 2 { p as isize - n as isize } else { p as isize };
            Some(correlation(audio, signal, k))
        })
        .collect();
    global_lag(&keys)
}

#[test]
fn corrected_subtitles_meet_the_audio() {
    let spoken = timing_signal(CONTENT, 1_000).unwrap();
    let audio: Vec<i32> = spoken.iter().map(|&set| if set { 3 } else { 0 }).collect();
    for late in [-1_200i64, -30, 0, 50, 2_000] {
        // Subtitles that come `late` ms after the audio.
        let content = resync(CONTENT, late).unwrap();
        let shown = timing_signal(&content, 1_000).unwrap();
        let lag = lag_of(&audio, &shown);
        assert_eq!(lag as i64 * 10, -late);
        let corrected = resync(&content, lag as i64 * 10).unwrap();
        let again = timing_signal(&corrected, 1_000).unwrap();
        assert_eq!(again, spoken);
        assert_eq!(lag_of(&audio, &again), 0);
        for m in -400..400isize {
            assert_eq!(correlation(&audio, &again, m), correlation(&audio, &shown, m + lag));
        }
    }
}

#[test]
fn swapped_signals_have_the_opposite_lag() {
    let levels = |s: &[bool]| -> Vec<i32> { s.iter().map(|&set| set as i32).collect() };
    let a: Vec<bool> = (0..40).map(|i| [3, 9, 10, 17].contains(&i)).collect();
    for d in -3..20isize {
        let b: Vec<bool> =
            (0..40isize).map(|i| [3, 9, 10, 17].contains(&(i - d))).collect();
        // The second is `d` samples later: as subtitles, it is late by that much.
        assert_eq!(lag_of(&levels(&a), &b), -d);
        assert_eq!(lag_of(&levels(&b), &a), d);
        for k in -45..45isize {
            assert_eq!(correlation(&levels(&a), &b, k), correlation(&levels(&b), &a, -k));
        }
    }
}

#[test]
fn windows_of_joined_audio() {
    for (first, second, rate) in [(480usize, 100usize, 48_000u32), (960, 481, 48_000), (0, 5, 300), (9, 4, 300)] {
        let mut want = energy_windows(first, rate);
        want.extend(energy_windows(second, rate).into_iter().map(|(a, b)| (first + a, first + b)));
        assert_eq!(energy_windows(first + second, rate), want);
    }
}

#[test]
fn streamed_frames_lie_in_their_windows() {
    let mut window = EnergyWindow::new(300);
    let mut closed = 0;
    for f in 0..20usize {
        for (k, &(start, end)) in energy_windows(20, 300).iter().enumerate() {
            assert_eq!(k == closed, start <= f && f < end);
        }
        if window.add_frame() {
            closed += 1;
        }
    }
}

#[test]
fn timing_signals() {
    let signal = timing_signal(CONTENT, 1_000).unwrap();
    assert_eq!(signal.len(), 1_000);
    let set: Vec<usize> = (0..1_000).filter(|&i| signal[i]).collect();
    let want: Vec<usize> = (150..400).chain(500..750).collect();
    assert_eq!(set, want);
    assert_eq!(
        timing_signal("nothing here", 10),
        Err("No subtitle entries found in file".to_string())
    );
    assert_eq!(timing_signal("1\n2\n3", 10), Err("Invalid timestamp line: \"2\"".to_string()));
    assert_eq!(
        timing_signal("1\n0:0:0,12é --> 0:0:1,0\na", 10),
        Err("Bad ms: \"12é\"".to_string())
    );
}

#[test]
fn corrected_files() {
    // Early subtitles, for which the offset is positive, are held back.
    assert_eq!(
        resync("1\n00:00:01,500 --> 00:00:04,000\nHi\n", 500).unwrap(),
        "1\n00:00:02,000 --> 00:00:04,500\nHi\n"
    );
    assert_eq!(
        resync(CONTENT, -2_000).unwrap(),
        "1\n00:00:00,000 --> 00:00:02,000\nHello\n\n2\n00:00:03,000 --> 00:00:05,500\nBye\n"
    );
    assert_eq!(resync("", 5).unwrap(), "");
    assert_eq!(resync("x\n2\n3", 0), Err("Cannot parse sequence number: \"x\"".to_string()));
    assert_eq!(resync(CONTENT, i64::MAX), Err("Offset out of range".to_string()));
    assert!(resync(CONTENT, i64::MIN).is_ok());
    assert_eq!(
        resync("1\n0:0:0,12é --> 0:0:1,0\na", 0),
        Err("Bad ms: \"12é\"".to_string())
    );
}

#[test]
fn corrected_files_hold_the_moved_entries() {
    for offset in [-6_000, -40, 0, 1_234] {
        let want = apply_offset(&parse_srt(CONTENT).unwrap(), offset);
        let got = parse_srt(&resync(CONTENT, offset).unwrap()).unwrap();
        assert_eq!(got.len(), want.len());
        for (i, (a, b)) in got.iter().zip(want.iter()).enumerate() {
            assert_eq!(a.index, i + 1);
            assert_eq!((a.start_ms, a.end_ms), (b.start_ms, b.end_ms));
            assert_eq!(a.text, b.text);
        }
    }
}
