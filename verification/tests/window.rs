use chronosub::engine::AlignmentResult;
use chronosub::updater::{AppVersion, UpdateInfo, UpdateUrgency};
use chronosub::window::{
    extension_kind, lower_extension_kind, offset_hint, preview_bars, tells_success, AlignmentPoll,
    ChronoSubApp, DroppedFile, FileKind, UpdateNotice, UpdatePoll, PREVIEW_SAMPLES,
};

type App = ChronoSubApp<String, f32>;

const URL: &str = "https://github.com/owner/repo";
const READY: &str = "Both files loaded. Click ⚡ Synchronize Subtitles to begin.";

fn open() -> App {
    App::new("1.7.3", "42", URL).0
}

fn file(name: &str) -> DroppedFile<String> {
    let extension = name.rsplit_once('.').map_or("", |(_, e)| e).to_string();
    DroppedFile { path: Some(name.to_string()), extension }
}

fn loaded() -> App {
    let mut app = open();
    app.drop_files(vec![file("a.mkv"), file("a.srt")]);
    app
}

fn result() -> AlignmentResult<f32> {
    AlignmentResult { offset_secs: -1.25, audio_energy: vec![0.5, 1.0], sub_signal: vec![0.0, 1.0] }
}

fn finished() -> AlignmentPoll<f32> {
    AlignmentPoll::Finished { result: result(), shown: "-1.250".to_string() }
}

fn update(major: u64, minor: u64, urgency: UpdateUrgency) -> UpdateInfo {
    UpdateInfo {
        latest_version: AppVersion { major, minor, patch: 0 },
        html_url: "https://x".to_string(),
        urgency,
        instructions: "do".to_string(),
    }
}

#[test]
fn the_window_as_it_opens() {
    let (app, target) = App::new("1.7.3", "42", URL);
    assert_eq!(target, Some(("owner".to_string(), "repo".to_string())));
    assert_eq!(app.status, "Drag & drop a video file and an SRT subtitle file here.");
    assert_eq!(app.version_label(), "Version 1.42.3");
    assert!(app.awaiting_update && !app.awaiting_result && !app.processing);
    assert!(app.video_path.is_none() && app.sub_path.is_none() && app.offset_found.is_none());
    assert!(app.audio_energy.is_empty() && app.sub_signal.is_empty());
    assert!(app.save_status.is_none() && app.available_update.is_none() && app.update_error.is_none());
    assert!(matches!(app.update_notice(), UpdateNotice::Checking));
    assert!(app.asks_for_files() && !app.can_run() && !app.can_save());
    assert!(!app.has_result_to_save());

    let (app, target) = App::new("x", "42", "nowhere");
    assert_eq!(target, None);
    assert!(!app.awaiting_update);
    assert_eq!(app.version_label(), "Version 0.0.0");
    assert!(matches!(app.update_notice(), UpdateNotice::Nothing));
}

#[test]
fn kinds_of_files() {
    for ext in ["mp4", "mkv", "avi", "mov", "webm", "m4v"] {
        assert_eq!(lower_extension_kind(ext), FileKind::Video);
        assert_eq!(extension_kind(ext), FileKind::Video);
        assert_eq!(extension_kind(&ext.to_uppercase()), FileKind::Video);
        assert_eq!(lower_extension_kind(&ext.to_uppercase()), FileKind::Other);
    }
    assert_eq!(extension_kind("srt"), FileKind::Subtitles);
    assert_eq!(extension_kind("SrT"), FileKind::Subtitles);
    // The Kelvin sign is a capital letter too.
    assert_eq!(extension_kind("m\u{212a}v"), FileKind::Video);
    for ext in ["", "txt", "srt2", "mp3", " srt"] {
        assert_eq!(extension_kind(ext), FileKind::Other);
    }
}

#[test]
fn dropped_files() {
    let mut app = open();
    app.drop_files(vec![]);
    assert_eq!(app.status, "Drag & drop a video file and an SRT subtitle file here.");
    app.drop_files(vec![file("notes.txt"), DroppedFile { path: None, extension: "mkv".to_string() }]);
    assert_eq!(app.status, "Drag & drop a video file and an SRT subtitle file here.");
    assert!(app.asks_for_files());

    app.drop_files(vec![file("a.MKV")]);
    assert_eq!(app.video_path.as_deref(), Some("a.MKV"));
    assert_eq!(app.status, "Video file loaded. Drop an SRT file to continue.");
    assert!(app.asks_for_files() && !app.can_run());
    app.drop_files(vec![file("b.mp4"), file("c.avi")]);
    assert_eq!(app.video_path.as_deref(), Some("c.avi"));

    app.drop_files(vec![file("a.srt")]);
    assert_eq!(app.sub_path.as_deref(), Some("a.srt"));
    assert_eq!(app.status, READY);
    assert!(!app.asks_for_files() && app.can_run() && app.can_save());

    app.status = "Error: x".to_string();
    app.drop_files(vec![file("notes.txt")]);
    assert_eq!(app.status, READY);

    let mut app = open();
    app.drop_files(vec![file("a.srt")]);
    assert_eq!(app.status, "Subtitle file loaded. Drop a video file to continue.");
    assert!(app.asks_for_files() && !app.can_run() && app.can_save());
}

#[test]
fn files_in_either_order() {
    let mut ends: Vec<App> = Vec::new();
    for drops in [
        vec![vec!["v.mov", "s.srt"]],
        vec![vec!["s.srt", "v.mov"]],
        vec![vec!["v.mov"], vec!["s.srt"]],
        vec![vec!["s.srt"], vec!["v.mov"]],
    ] {
        let mut app = open();
        for files in drops {
            app.drop_files(files.into_iter().map(file).collect());
        }
        ends.push(app);
    }
    for app in &ends {
        assert_eq!(app.video_path.as_deref(), Some("v.mov"));
        assert_eq!(app.sub_path.as_deref(), Some("s.srt"));
        assert_eq!(app.status, READY);
    }
}

#[test]
fn an_alignment_that_finishes() {
    let mut app = loaded();
    app.start_alignment();
    assert!(app.processing && app.awaiting_result && !app.can_run() && !app.can_save());
    assert_eq!(app.status, "Analysing audio with Symphonia & computing FFT cross-correlation…");
    assert!(app.poll_alignment(AlignmentPoll::Pending));
    assert!(app.processing);
    assert!(!app.poll_alignment(finished()));
    assert_eq!(app.offset_found, Some(-1.25));
    assert_eq!(app.audio_energy, vec![0.5, 1.0]);
    assert_eq!(app.sub_signal, vec![0.0, 1.0]);
    assert_eq!(app.status, "Synchronization complete! Detected offset: -1.250 s");
    assert!(!app.processing && !app.awaiting_result && app.can_run() && app.can_save());
    assert!(app.has_result_to_save() && app.save_status.is_none());
    assert_eq!(app.video_path.as_deref(), Some("a.mkv"));
    assert_eq!(app.sub_path.as_deref(), Some("a.srt"));

    // A new one leaves nothing of the old.
    app.note_saved(Ok("a_synced.srt".to_string()));
    app.start_alignment();
    assert!(app.offset_found.is_none() && app.audio_energy.is_empty() && app.sub_signal.is_empty());
    assert!(app.save_status.is_none() && !app.has_result_to_save());
}

#[test]
fn an_alignment_that_fails() {
    for (event, status) in [
        (AlignmentPoll::Failed("No audio track found in file".to_string()), "Error: No audio track found in file"),
        (AlignmentPoll::Disconnected, "Processing thread disconnected unexpectedly."),
    ] {
        let mut app = loaded();
        app.start_alignment();
        assert!(!app.poll_alignment(event));
        assert_eq!(app.status, status);
        assert!(!app.processing && !app.awaiting_result && app.can_run());
        assert!(app.offset_found.is_none() && app.audio_energy.is_empty() && app.sub_signal.is_empty());
        assert_eq!(app.video_path.as_deref(), Some("a.mkv"));
    }
}

#[test]
fn outcomes_that_come_late() {
    let mut app = loaded();
    for event in [
        finished(),
        AlignmentPoll::Failed("x".to_string()),
        AlignmentPoll::Pending,
        AlignmentPoll::Disconnected,
    ] {
        assert!(!app.poll_alignment(event));
        assert_eq!(app.status, READY);
        assert!(app.offset_found.is_none());
    }
    app.poll_update(UpdatePoll::Failed("first".to_string()));
    app.poll_update(UpdatePoll::Finished(update(9, 0, UpdateUrgency::Major)));
    assert_eq!(app.update_error.as_deref(), Some("first"));
    assert!(app.available_update.is_none());
}

#[test]
fn update_checks() {
    let mut app = open();
    app.poll_update(UpdatePoll::Pending);
    assert!(app.awaiting_update);
    assert!(matches!(app.update_notice(), UpdateNotice::Checking));

    app.poll_update(UpdatePoll::Finished(update(2, 0, UpdateUrgency::Major)));
    assert!(!app.awaiting_update && app.update_error.is_none());
    match app.update_notice() {
        UpdateNotice::Available { text, major } => {
            assert_eq!(text, "Major update available: 2.0.0");
            assert!(major);
        }
        _ => panic!("no notice"),
    }
    assert_eq!(
        app.major_prompt().unwrap(),
        "A major release (2.0.0) is available and contains critical changes that should be installed."
    );

    let mut app = open();
    app.poll_update(UpdatePoll::Finished(update(1, 43, UpdateUrgency::Minor)));
    match app.update_notice() {
        UpdateNotice::Available { text, major } => {
            assert_eq!(text, "Significant update available: 1.43.0");
            assert!(!major);
        }
        _ => panic!("no notice"),
    }
    assert!(app.major_prompt().is_none());

    let mut app = open();
    app.poll_update(UpdatePoll::Finished(update(1, 42, UpdateUrgency::UpToDate)));
    assert!(app.available_update.is_none() && app.update_error.is_none() && !app.awaiting_update);
    assert!(matches!(app.update_notice(), UpdateNotice::Nothing));
    assert!(app.major_prompt().is_none());
    app.available_update = Some(update(1, 42, UpdateUrgency::UpToDate));
    match app.update_notice() {
        UpdateNotice::Available { text, major } => assert_eq!((text.as_str(), major), ("Up to date: 1.42.0", false)),
        _ => panic!("no notice"),
    }

    for (event, why) in [
        (UpdatePoll::Failed("offline".to_string()), "Update check unavailable: offline"),
        (
            UpdatePoll::Disconnected,
            "Update check unavailable: Update checker disconnected unexpectedly.",
        ),
    ] {
        let mut app = open();
        app.poll_update(event);
        assert!(!app.awaiting_update && app.available_update.is_none());
        match app.update_notice() {
            UpdateNotice::Unavailable(text) => assert_eq!(text, why),
            _ => panic!("no notice"),
        }
    }
}

#[test]
fn saving() {
    let mut app = loaded();
    app.note_saved(Ok("a_synced.srt".to_string()));
    assert!(app.save_status.is_none());
    app.start_alignment();
    app.poll_alignment(finished());
    app.note_saved(Err("Cannot write output file: full".to_string()));
    let message = app.save_status.clone().unwrap();
    assert_eq!(message, "Save failed: Cannot write output file: full");
    assert!(!tells_success(&message));
    app.note_saved(Ok("a_synced.srt".to_string()));
    let message = app.save_status.clone().unwrap();
    assert_eq!(message, "Saved → a_synced.srt");
    assert!(tells_success(&message));
    assert!(!tells_success("Save") && !tells_success("") && !tells_success("not Saved"));
}

#[test]
fn hints() {
    assert_eq!(offset_hint(true, false), "Subtitles are ahead of the audio → will be shifted back.");
    assert_eq!(offset_hint(false, true), "Subtitles are behind the audio → will be advanced.");
    assert_eq!(offset_hint(false, false), "Subtitles are already in sync.");
}

#[test]
fn waveform_bars() {
    assert_eq!(preview_bars(10, 4, 3), vec![0, 3, 6]);
    assert_eq!(preview_bars(4, 10, 3), vec![0, 3, 6]);
    assert_eq!(preview_bars(3, 0, 0), vec![0, 1, 2]);
    assert_eq!(preview_bars(2, 1, 5), Vec::<usize>::new());
    assert_eq!(preview_bars(0, 0, 1), Vec::<usize>::new());
    // At most so many bars, spread over all of the signal.
    assert_eq!(PREVIEW_SAMPLES, 2_000);
    let many = preview_bars(720_000, 720_000, 1);
    assert_eq!(many.len(), 2_000);
    assert_eq!(many[1_999], 719_640);
    let spread = preview_bars(3_000, 3_000, 1);
    assert_eq!(spread.len(), 1_500);
    assert_eq!(spread[1_499], 2_998);
    assert_eq!(preview_bars(2_000, 0, 1).len(), 2_000);
    assert_eq!(preview_bars(2_001, 0, 1).len(), 1_000);
}
