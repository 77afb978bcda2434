//! The state of the desktop window, and how events change it.

use vstd::prelude::*;

use crate::engine::AlignmentResult;
use crate::text;
use crate::updater;
use crate::updater::AppVersion;
use crate::updater::UpdateInfo;
use crate::updater::UpdateUrgency;

verus! {

// ---------------------------------------------------------------------------
// Dropped files
// ---------------------------------------------------------------------------

/// What a dropped file is taken for.
#[derive(Debug, Clone, Copy, PartialEq, Eq, Structural)]
pub enum FileKind {
    Video,
    Subtitles,
    Other,
}

/// What a file with the lower-case extension `ext` is taken for.
pub open spec fn kind_of(ext: Seq<char>) -> FileKind {
    if ext == "mp4"@ || ext == "mkv"@ || ext == "avi"@ || ext == "mov"@ || ext == "webm"@ || ext
        == "m4v"@ {
        FileKind::Video
    } else if ext == "srt"@ {
        FileKind::Subtitles
    } else {
        FileKind::Other
    }
}

/// What a file with the lower-case extension `ext` is taken for.
pub fn lower_extension_kind(ext: &str) -> (r: FileKind)
    ensures
        r == kind_of(ext@),
{
    if text::same(ext, "mp4") || text::same(ext, "mkv") || text::same(ext, "avi") || text::same(
        ext,
        "mov",
    ) || text::same(ext, "webm") || text::same(ext, "m4v") {
        FileKind::Video
    } else if text::same(ext, "srt") {
        FileKind::Subtitles
    } else {
        FileKind::Other
    }
}

/// What `str::to_lowercase` makes of a text.
pub uninterp spec fn lowercase_text(s: Seq<char>) -> Seq<char>;

/// The lower-case form of an ASCII character.
pub open spec fn ascii_lower(c: char) -> char {
    if 'A' <= c <= 'Z' {
        (c as u32 + 32) as char
    } else {
        c
    }
}

/// `str::to_lowercase`: the lower-case form of `s`, which depends on nothing
/// but `s`. Of an ASCII text it is the text with its capital letters made
/// small; for other texts the mapping is left to the standard library.
#[verifier::external_body]
fn to_lowercase(s: &str) -> (r: String)
    ensures
        r@ == lowercase_text(s@),
        vstd::utf8::is_ascii_chars(s@) ==> r@ == s@.map_values(|c: char| ascii_lower(c)),
{
    s.to_lowercase()
}

/// `s` in lower case.
pub open spec fn lowered(s: Seq<char>) -> Seq<char> {
    if vstd::utf8::is_ascii_chars(s) {
        s.map_values(|c: char| ascii_lower(c))
    } else {
        lowercase_text(s)
    }
}

/// What a file with the extension `ext` is taken for, in capitals or not.
pub fn extension_kind(ext: &str) -> (r: FileKind)
    ensures
        r == kind_of(lowered(ext@)),
{
    let lower: String = to_lowercase(ext);
    lower_extension_kind(lower.as_str())
}

/// A file that was dropped onto the window. `P` is the type of a path.
pub struct DroppedFile<P> {
    pub path: Option<P>,
    pub extension: String,
}

// ---------------------------------------------------------------------------
// The state
// ---------------------------------------------------------------------------

/// The state of the window. `P` is the type of a path, `F` that of a sample.
pub struct ChronoSubApp<P, F> {
    pub video_path: Option<P>,
    pub sub_path: Option<P>,
    pub status: String,
    pub offset_found: Option<F>,
    pub audio_energy: Vec<F>,
    pub sub_signal: Vec<F>,
    pub processing: bool,
    /// Whether the outcome of an alignment is still to come.
    pub awaiting_result: bool,
    pub save_status: Option<String>,
    pub current_version: AppVersion,
    /// Whether the outcome of the update check is still to come.
    pub awaiting_update: bool,
    pub available_update: Option<UpdateInfo>,
    pub update_error: Option<String>,
}

/// What the window knows.
#[verifier::ext_equal]
pub struct WindowModel<P, F> {
    pub video: Option<P>,
    pub subtitles: Option<P>,
    pub status: Seq<char>,
    pub offset: Option<F>,
    pub energy: Seq<F>,
    pub signal: Seq<F>,
    pub processing: bool,
    pub awaiting_result: bool,
    pub save_status: Option<Seq<char>>,
    pub version: AppVersion,
    pub awaiting_update: bool,
    pub update: Option<updater::Release>,
    pub update_error: Option<Seq<char>>,
}

/// The text of an optional message.
pub open spec fn message_of(s: Option<String>) -> Option<Seq<char>> {
    match s {
        Some(t) => Some(t@),
        None => None,
    }
}

impl<P, F> View for ChronoSubApp<P, F> {
    type V = WindowModel<P, F>;

    open spec fn view(&self) -> WindowModel<P, F> {
        WindowModel {
            video: self.video_path,
            subtitles: self.sub_path,
            status: self.status@,
            offset: self.offset_found,
            energy: self.audio_energy@,
            signal: self.sub_signal@,
            processing: self.processing,
            awaiting_result: self.awaiting_result,
            save_status: message_of(self.save_status),
            version: self.current_version,
            awaiting_update: self.awaiting_update,
            update: match self.available_update {
                Some(u) => Some(u@),
                None => None,
            },
            update_error: message_of(self.update_error),
        }
    }
}

impl<P, F> WindowModel<P, F> {
    /// What holds of the window at any time: it is busy exactly while an
    /// outcome is still to come, and then both files are there and nothing is
    /// left of an earlier alignment; a message about saving belongs to an
    /// offset; and only updates that matter are kept.
    pub open spec fn wf(self) -> bool {
        &&& self.processing == self.awaiting_result
        &&& self.processing ==> self.video is Some && self.subtitles is Some
        &&& self.processing ==> self.offset is None && self.energy.len() == 0 && self.signal.len()
            == 0 && self.save_status is None
        &&& self.save_status is Some ==> self.offset is Some
        &&& self.update matches Some(u) ==> u.urgency != UpdateUrgency::UpToDate
        &&& self.awaiting_update ==> self.update is None && self.update_error is None
    }
}

// ---------------------------------------------------------------------------
// Events
// ---------------------------------------------------------------------------

/// What a look for the outcome of an alignment found. `shown` is the offset
/// as it is displayed.
pub enum AlignmentPoll<F> {
    Finished { result: AlignmentResult<F>, shown: String },
    Failed(String),
    Pending,
    Disconnected,
}

/// What a look for the outcome of the update check found.
pub enum UpdatePoll {
    Finished(UpdateInfo),
    Failed(String),
    Pending,
    Disconnected,
}

/// The window after a look for the outcome of an alignment.
pub open spec fn after_alignment_poll<P, F>(
    m: WindowModel<P, F>,
    event: AlignmentPoll<F>,
) -> WindowModel<P, F> {
    if !m.awaiting_result {
        m
    } else {
        match event {
            AlignmentPoll::Finished { result, shown } => WindowModel {
                offset: Some(result.offset_secs),
                energy: result.audio_energy@,
                signal: result.sub_signal@,
                status: "Synchronization complete! Detected offset: "@ + shown@ + " s"@,
                processing: false,
                awaiting_result: false,
                ..m
            },
            AlignmentPoll::Failed(e) => WindowModel {
                status: "Error: "@ + e@,
                processing: false,
                awaiting_result: false,
                ..m
            },
            AlignmentPoll::Pending => m,
            AlignmentPoll::Disconnected => WindowModel {
                status: "Processing thread disconnected unexpectedly."@,
                processing: false,
                awaiting_result: false,
                ..m
            },
        }
    }
}

/// The window after a look for the outcome of the update check.
pub open spec fn after_update_poll<P, F>(
    m: WindowModel<P, F>,
    event: UpdatePoll,
) -> WindowModel<P, F> {
    if !m.awaiting_update {
        m
    } else {
        match event {
            UpdatePoll::Finished(update) => WindowModel {
                update: if update.urgency != UpdateUrgency::UpToDate {
                    Some(update@)
                } else {
                    m.update
                },
                update_error: None,
                awaiting_update: false,
                ..m
            },
            UpdatePoll::Failed(e) => WindowModel {
                update_error: Some(e@),
                awaiting_update: false,
                ..m
            },
            UpdatePoll::Pending => m,
            UpdatePoll::Disconnected => WindowModel {
                update_error: Some("Update checker disconnected unexpectedly."@),
                awaiting_update: false,
                ..m
            },
        }
    }
}

/// The window after one file was dropped.
pub open spec fn after_drop_of<P, F>(
    m: WindowModel<P, F>,
    file: DroppedFile<P>,
) -> WindowModel<P, F> {
    match file.path {
        None => m,
        Some(path) => match kind_of(lowered(file.extension@)) {
            FileKind::Video => WindowModel {
                video: Some(path),
                status: "Video file loaded. Drop an SRT file to continue."@,
                ..m
            },
            FileKind::Subtitles => WindowModel {
                subtitles: Some(path),
                status: "Subtitle file loaded. Drop a video file to continue."@,
                ..m
            },
            FileKind::Other => m,
        },
    }
}

/// The window after files were dropped one by one.
pub open spec fn after_drops<P, F>(
    m: WindowModel<P, F>,
    files: Seq<DroppedFile<P>>,
) -> WindowModel<P, F>
    decreases files.len(),
{
    if files.len() == 0 {
        m
    } else {
        after_drop_of(after_drops(m, files.drop_last()), files.last())
    }
}

/// The window after files were dropped together.
pub open spec fn after_drop<P, F>(
    m: WindowModel<P, F>,
    files: Seq<DroppedFile<P>>,
) -> WindowModel<P, F> {
    let n = after_drops(m, files);
    if files.len() > 0 && n.video is Some && n.subtitles is Some {
        WindowModel {
            status: "Both files loaded. Click \u{26a1} Synchronize Subtitles to begin."@,
            ..n
        }
    } else {
        n
    }
}

/// The window after an alignment was started.
pub open spec fn after_start<P, F>(m: WindowModel<P, F>) -> WindowModel<P, F> {
    WindowModel {
        processing: true,
        awaiting_result: true,
        offset: None,
        energy: Seq::empty(),
        signal: Seq::empty(),
        save_status: None,
        status:
            "Analysing audio with Symphonia & computing FFT cross-correlation\u{2026}"@,
        ..m
    }
}

/// The message about an attempt to save: the name of the file, or an error.
pub open spec fn save_text(outcome: Result<String, String>) -> Seq<char> {
    match outcome {
        Ok(name) => "Saved \u{2192} "@ + name@,
        Err(e) => "Save failed: "@ + e@,
    }
}

impl<P, F> ChronoSubApp<P, F> {
    /// The window as it opens. The result names the owner and the repository
    /// whose latest release is to be looked up, where the address of the
    /// repository tells them.
    pub fn new(package_version: &str, commit_count: &str, repo_url: &str) -> (r: (
        Self,
        Option<(String, String)>,
    ))
        ensures
            r.0@.wf(),
            r.0@ == (WindowModel::<P, F> {
                video: None,
                subtitles: None,
                status: "Drag & drop a video file and an SRT subtitle file here."@,
                offset: None,
                energy: Seq::empty(),
                signal: Seq::empty(),
                processing: false,
                awaiting_result: false,
                save_status: None,
                version: r.0@.version,
                awaiting_update: updater::owner_and_name(repo_url@) is Some,
                update: None,
                update_error: None,
            }),
            r.0@.version == match updater::counted_version(package_version@, commit_count@) {
                Some(v) => v,
                None => match updater::version_value(package_version@) {
                    Some(v) => v,
                    None => (AppVersion { major: 0, minor: 0, patch: 0 }),
                },
            },
            match r.1 {
                Some((owner, name)) => updater::owner_and_name(repo_url@) == Some((owner@, name@)),
                None => updater::owner_and_name(repo_url@) is None,
            },
    {
        let target: Option<(String, String)> = updater::parse_repository_owner_and_name(repo_url);
        let app = ChronoSubApp {
            video_path: None,
            sub_path: None,
            status: "Drag & drop a video file and an SRT subtitle file here.".to_owned(),
            offset_found: None,
            audio_energy: Vec::new(),
            sub_signal: Vec::new(),
            processing: false,
            awaiting_result: false,
            save_status: None,
            current_version: updater::current_app_version(package_version, commit_count),
            awaiting_update: target.is_some(),
            available_update: None,
            update_error: None,
        };
        (app, target)
    }

    /// Takes in what a look for the outcome of an alignment found. The result
    /// says whether the window has to look again soon.
    pub fn poll_alignment(&mut self, event: AlignmentPoll<F>) -> (r: bool)
        ensures
            final(self)@ == after_alignment_poll(old(self)@, event),
            r == (old(self)@.awaiting_result && event is Pending),
            old(self)@.wf() ==> final(self)@.wf(),
    {
        if !self.awaiting_result {
            return false;
        }
        match event {
            AlignmentPoll::Finished { result, shown } => {
                self.offset_found = Some(result.offset_secs);
                self.audio_energy = result.audio_energy;
                self.sub_signal = result.sub_signal;
                self.status = text::concat(
                    text::concat(
                        "Synchronization complete! Detected offset: ",
                        shown.as_str(),
                    ).as_str(),
                    " s",
                );
                self.processing = false;
                self.awaiting_result = false;
                false
            },
            AlignmentPoll::Failed(e) => {
                self.status = text::concat("Error: ", e.as_str());
                self.processing = false;
                self.awaiting_result = false;
                false
            },
            AlignmentPoll::Pending => true,
            AlignmentPoll::Disconnected => {
                self.status = "Processing thread disconnected unexpectedly.".to_owned();
                self.processing = false;
                self.awaiting_result = false;
                false
            },
        }
    }

    /// Takes in what a look for the outcome of the update check found.
    pub fn poll_update(&mut self, event: UpdatePoll)
        ensures
            final(self)@ == after_update_poll(old(self)@, event),
            old(self)@.wf() ==> final(self)@.wf(),
    {
        if !self.awaiting_update {
            return ;
        }
        match event {
            UpdatePoll::Finished(update) => {
                if update.urgency != UpdateUrgency::UpToDate {
                    self.available_update = Some(update);
                }
                self.update_error = None;
                self.awaiting_update = false;
            },
            UpdatePoll::Failed(e) => {
                self.update_error = Some(e);
                self.awaiting_update = false;
            },
            UpdatePoll::Pending => {},
            UpdatePoll::Disconnected => {
                self.update_error = Some("Update checker disconnected unexpectedly.".to_owned());
                self.awaiting_update = false;
            },
        }
    }

    /// Takes in one dropped file.
    fn drop_one(&mut self, file: DroppedFile<P>)
        ensures
            final(self)@ == after_drop_of(old(self)@, file),
    {
        if let Some(path) = file.path {
            match extension_kind(file.extension.as_str()) {
                FileKind::Video => {
                    self.video_path = Some(path);
                    self.status = "Video file loaded. Drop an SRT file to continue.".to_owned();
                },
                FileKind::Subtitles => {
                    self.sub_path = Some(path);
                    self.status =
                    "Subtitle file loaded. Drop a video file to continue.".to_owned();
                },
                FileKind::Other => {},
            }
        }
    }

    /// Takes in the files that were dropped onto the window together.
    pub fn drop_files(&mut self, files: Vec<DroppedFile<P>>)
        ensures
            final(self)@ == after_drop(old(self)@, files@),
            old(self)@.wf() ==> final(self)@.wf(),
    {
        let any: bool = files.len() > 0;
        let ghost all = files@;
        let ghost start = self@;
        for file in it: files
            invariant
                it.seq() == all,
                self@ == after_drops(start, all.take(it.index())),
        {
            proof {
                let next = all.take(it.index() + 1);
                assert(next.drop_last() =~= all.take(it.index()));
                assert(next.last() == file);
            }
            self.drop_one(file);
        }
        proof {
            assert(all.take(all.len() as int) =~= all);
            lemma_drops_keep(start, all);
        }
        if any && self.video_path.is_some() && self.sub_path.is_some() {
            self.status =
            "Both files loaded. Click \u{26a1} Synchronize Subtitles to begin.".to_owned();
        }
    }

    /// Whether an alignment can be started.
    pub fn can_run(&self) -> (r: bool)
        ensures
            r == (self@.video is Some && self@.subtitles is Some && !self@.processing),
    {
        self.video_path.is_some() && self.sub_path.is_some() && !self.processing
    }

    /// Whether the corrected subtitles can be saved once an offset is shown.
    pub fn can_save(&self) -> (r: bool)
        ensures
            r == (self@.subtitles is Some && !self@.processing),
    {
        self.sub_path.is_some() && !self.processing
    }

    /// Starts an alignment of the two files.
    pub fn start_alignment(&mut self)
        requires
            old(self)@.video is Some,
            old(self)@.subtitles is Some,
        ensures
            final(self)@ == after_start(old(self)@),
            old(self)@.wf() ==> final(self)@.wf(),
    {
        self.processing = true;
        self.awaiting_result = true;
        self.offset_found = None;
        self.audio_energy.clear();
        self.sub_signal.clear();
        self.save_status = None;
        self.status =
        "Analysing audio with Symphonia & computing FFT cross-correlation\u{2026}".to_owned();
    }

    /// Whether there is something to save: an offset, and a file to apply it
    /// to.
    pub fn has_result_to_save(&self) -> (r: bool)
        ensures
            r == (self@.offset is Some && self@.subtitles is Some),
    {
        self.offset_found.is_some() && self.sub_path.is_some()
    }

    /// Takes in the outcome of an attempt to save: the name of the file that
    /// was written, or an error. Without anything to save nothing changes.
    pub fn note_saved(&mut self, outcome: Result<String, String>)
        ensures
            final(self)@ == if old(self)@.offset is Some && old(self)@.subtitles is Some {
                WindowModel { save_status: Some(save_text(outcome)), ..old(self)@ }
            } else {
                old(self)@
            },
            old(self)@.wf() ==> final(self)@.wf(),
    {
        if !self.has_result_to_save() {
            return ;
        }
        self.save_status =
        match outcome {
            Ok(name) => Some(text::concat("Saved \u{2192} ", name.as_str())),
            Err(e) => Some(text::concat("Save failed: ", e.as_str())),
        };
    }
}

/// Dropped files touch the two files and the status alone, and take no file
/// away.
proof fn lemma_drops_keep<P, F>(m: WindowModel<P, F>, files: Seq<DroppedFile<P>>)
    ensures
        ({
            let n = after_drops(m, files);
            &&& n == (WindowModel {
                video: n.video,
                subtitles: n.subtitles,
                status: n.status,
                ..m
            })
            &&& m.video is Some ==> n.video is Some
            &&& m.subtitles is Some ==> n.subtitles is Some
        }),
    decreases files.len(),
{
    if files.len() > 0 {
        lemma_drops_keep(m, files.drop_last());
    }
}

/// An alignment that was started and finishes leaves its result, the window
/// ready for the next one, and the files as they were.
pub proof fn law_alignment_finishes<P, F>(
    m: WindowModel<P, F>,
    result: AlignmentResult<F>,
    shown: String,
)
    ensures
        ({
            let n = after_alignment_poll(
                after_start(m),
                AlignmentPoll::Finished { result, shown },
            );
            &&& n.offset == Some(result.offset_secs)
            &&& n.energy == result.audio_energy@
            &&& n.signal == result.sub_signal@
            &&& !n.processing
            &&& !n.awaiting_result
            &&& n.save_status is None
            &&& n.video == m.video
            &&& n.subtitles == m.subtitles
        }),
{
}

/// An alignment that was started and fails, for whatever reason, leaves no
/// result, the window ready for the next one, and the files as they were.
pub proof fn law_alignment_fails<P, F>(m: WindowModel<P, F>, event: AlignmentPoll<F>)
    requires
        event is Failed || event is Disconnected,
    ensures
        ({
            let n = after_alignment_poll(after_start(m), event);
            &&& n.offset is None
            &&& n.energy.len() == 0
            &&& n.signal.len() == 0
            &&& !n.processing
            &&& !n.awaiting_result
            &&& n.video == m.video
            &&& n.subtitles == m.subtitles
        }),
{
}

/// A window that waits for nothing is changed by no outcome.
pub proof fn law_late_outcomes_ignored<P, F>(
    m: WindowModel<P, F>,
    alignment: AlignmentPoll<F>,
    update: UpdatePoll,
)
    ensures
        !m.awaiting_result ==> after_alignment_poll(m, alignment) == m,
        !m.awaiting_update ==> after_update_poll(m, update) == m,
{
}

/// An update check that ends is over, and leaves at most one of an update and
/// an error.
pub proof fn law_update_check_ends<P, F>(m: WindowModel<P, F>, event: UpdatePoll)
    requires
        m.wf(),
        m.awaiting_update,
        !(event is Pending),
    ensures
        ({
            let n = after_update_poll(m, event);
            &&& !n.awaiting_update
            &&& n.update is None || n.update_error is None
            &&& n.update is Some <==> (event matches UpdatePoll::Finished(u) && u.urgency
                != UpdateUrgency::UpToDate)
        }),
{
}

/// A video and a subtitle file may be dropped in either order, together or one
/// after the other: the window ends up the same, with both files.
pub proof fn law_drop_order<P, F>(
    m: WindowModel<P, F>,
    video: DroppedFile<P>,
    subtitles: DroppedFile<P>,
)
    requires
        video.path is Some,
        subtitles.path is Some,
        kind_of(lowered(video.extension@)) == FileKind::Video,
        kind_of(lowered(subtitles.extension@)) == FileKind::Subtitles,
    ensures
        ({
            let n = after_drop(m, seq![video, subtitles]);
            &&& n.video == video.path
            &&& n.subtitles == subtitles.path
            &&& n == after_drop(m, seq![subtitles, video])
            &&& n == after_drop(after_drop(m, seq![video]), seq![subtitles])
            &&& n == after_drop(after_drop(m, seq![subtitles]), seq![video])
        }),
{
    reveal_with_fuel(after_drops, 3);
    assert(seq![video, subtitles].drop_last() =~= seq![video]);
    assert(seq![subtitles, video].drop_last() =~= seq![subtitles]);
    assert(seq![video].drop_last() =~= Seq::empty());
    assert(seq![subtitles].drop_last() =~= Seq::empty());
}

// ---------------------------------------------------------------------------
// What is shown
// ---------------------------------------------------------------------------

/// What the window says about updates.
pub enum UpdateNotice {
    /// A release is out. `major` says whether it is a major one.
    Available { text: String, major: bool },
    Checking,
    Unavailable(String),
    Nothing,
}

/// How an update is announced.
pub open spec fn urgency_label(urgency: UpdateUrgency) -> Seq<char> {
    match urgency {
        UpdateUrgency::Major => "Major update available"@,
        UpdateUrgency::Minor => "Significant update available"@,
        UpdateUrgency::UpToDate => "Up to date"@,
    }
}

impl<P, F> ChronoSubApp<P, F> {
    /// The line that names the running version.
    pub fn version_label(&self) -> (r: String)
        ensures
            r@ == "Version "@ + updater::version_text(self@.version),
    {
        text::concat("Version ", updater::version_string(self.current_version).as_str())
    }

    /// What the window says about updates: a release that was found, or else
    /// that the check is running, or else why it failed.
    pub fn update_notice(&self) -> (r: UpdateNotice)
        ensures
            match self@.update {
                Some(u) => {
                    &&& r matches UpdateNotice::Available { text, major }
                    &&& text@ == urgency_label(u.urgency) + ": "@ + updater::version_text(u.version)
                    &&& major == (u.urgency == UpdateUrgency::Major)
                },
                None => if self@.awaiting_update {
                    r is Checking
                } else {
                    match self@.update_error {
                        Some(e) => r matches UpdateNotice::Unavailable(text) && text@
                            == "Update check unavailable: "@ + e,
                        None => r is Nothing,
                    }
                },
            },
    {
        match &self.available_update {
            Some(update) => {
                let label: &str = match update.urgency {
                    UpdateUrgency::Major => "Major update available",
                    UpdateUrgency::Minor => "Significant update available",
                    UpdateUrgency::UpToDate => "Up to date",
                };
                let version: String = updater::version_string(update.latest_version);
                UpdateNotice::Available {
                    text: text::concat(text::concat(label, ": ").as_str(), version.as_str()),
                    major: update.urgency == UpdateUrgency::Major,
                }
            },
            None => {
                if self.awaiting_update {
                    UpdateNotice::Checking
                } else {
                    match &self.update_error {
                        Some(e) => UpdateNotice::Unavailable(
                            text::concat("Update check unavailable: ", e.as_str()),
                        ),
                        None => UpdateNotice::Nothing,
                    }
                }
            },
        }
    }

    /// The text of the window that insists on a major update.
    pub fn major_prompt(&self) -> (r: Option<String>)
        ensures
            match self@.update {
                Some(u) => if u.urgency == UpdateUrgency::Major {
                    r matches Some(text) && text@ == "A major release ("@ + updater::version_text(
                        u.version,
                    )
                        + ") is available and contains critical changes that should be installed."@
                } else {
                    r is None
                },
                None => r is None,
            },
    {
        match &self.available_update {
            Some(update) => {
                if update.urgency == UpdateUrgency::Major {
                    let version: String = updater::version_string(update.latest_version);
                    Some(
                        text::concat(
                            text::concat("A major release (", version.as_str()).as_str(),
                            ") is available and contains critical changes that should be installed.",
                        ),
                    )
                } else {
                    None
                }
            },
            None => None,
        }
    }

    /// Whether the window still asks for a file.
    pub fn asks_for_files(&self) -> (r: bool)
        ensures
            r == (self@.video is None || self@.subtitles is None),
    {
        self.video_path.is_none() || self.sub_path.is_none()
    }
}

/// What is said about an offset that is above zero, below zero, or neither.
pub open spec fn offset_hint_text(above: bool, below: bool) -> Seq<char> {
    if above {
        "Subtitles are ahead of the audio \u{2192} will be shifted back."@
    } else if below {
        "Subtitles are behind the audio \u{2192} will be advanced."@
    } else {
        "Subtitles are already in sync."@
    }
}

/// What is said about an offset that is above zero, below zero, or neither.
pub fn offset_hint(above: bool, below: bool) -> (r: String)
    ensures
        r@ == offset_hint_text(above, below),
{
    if above {
        "Subtitles are ahead of the audio \u{2192} will be shifted back.".to_owned()
    } else if below {
        "Subtitles are behind the audio \u{2192} will be advanced.".to_owned()
    } else {
        "Subtitles are already in sync.".to_owned()
    }
}

/// Whether a message about saving tells of success.
pub fn tells_success(message: &str) -> (r: bool)
    ensures
        r == text::occurs_at(message@, "Saved"@, 0),
{
    let chars: Vec<char> = text::chars_of(message);
    let mark: Vec<char> = text::chars_of("Saved");
    text::stands_at(chars.as_slice(), mark.as_slice(), 0)
}

/// A message about saving tells of success if and only if the file was saved.
pub proof fn law_save_message(outcome: Result<String, String>)
    ensures
        text::occurs_at(save_text(outcome), "Saved"@, 0) <==> outcome is Ok,
{
    reveal_strlit("Saved");
    match outcome {
        Ok(name) => {
            reveal_strlit("Saved \u{2192} ");
            assert(save_text(outcome).subrange(0, 5) =~= "Saved"@);
        },
        Err(e) => {
            reveal_strlit("Save failed: ");
            assert(save_text(outcome)[4] == ' ');
            if text::occurs_at(save_text(outcome), "Saved"@, 0) {
                assert(save_text(outcome).subrange(0, 5)[4] == 'd');
            }
        },
    }
}

/// The most bars that the waveform overview draws.
pub const PREVIEW_SAMPLES: usize = 2000;

/// How many samples each bar of the waveform overview of `total` samples stands
/// for: as many as it takes for the bars to fit side by side, which is
/// `per_bar`, and for them to be no more than [`PREVIEW_SAMPLES`].
pub open spec fn bar_step(total: int, per_bar: int) -> int {
    let least = (total + PREVIEW_SAMPLES - 1) / (PREVIEW_SAMPLES as int);
    if per_bar > least && per_bar > 1 {
        per_bar
    } else if least > 1 {
        least
    } else {
        1
    }
}

/// The larger of two lengths.
pub open spec fn longer(a: int, b: int) -> int {
    if a > b {
        a
    } else {
        b
    }
}

/// The sample that each bar of the waveform overview shows. `per_bar` is how
/// many samples a bar has to stand for so that the bars fit side by side.
pub fn preview_bars(audio_len: usize, sub_len: usize, per_bar: usize) -> (r: Vec<usize>)
    ensures
        ({
            let total = longer(audio_len as int, sub_len as int);
            let step = bar_step(total, per_bar as int);
            &&& r@.len() == total / step
            &&& r@.len() <= PREVIEW_SAMPLES
            &&& forall|i: int|
                0 <= i < r@.len() ==> (#[trigger] r@[i]) == i * step && r@[i] < total
            // The bars reach the end: fewer samples than a bar stands for are left.
            &&& 0 <= total - r@.len() * step < step
        }),
{
    let total: usize = if audio_len > sub_len {
        audio_len
    } else {
        sub_len
    };
    let least: usize = total / PREVIEW_SAMPLES + if total % PREVIEW_SAMPLES > 0 {
        1
    } else {
        0
    };
    let step: usize = if per_bar > least && per_bar > 1 {
        per_bar
    } else if least > 1 {
        least
    } else {
        1
    };
    proof {
        assert(least as int == (total + 1999) / 2000);
        lemma_bars_fit(total as int, step as int);
    }
    let count: usize = total / step;
    let mut out: Vec<usize> = Vec::new();
    let mut i: usize = 0;
    while i < count
        invariant
            step >= 1,
            count == total / step,
            i <= count,
            out@.len() == i,
            forall|j: int|
                0 <= j < i ==> (#[trigger] out@[j]) == j * (step as int) && out@[j] < total,
        decreases count - i,
    {
        proof {
            lemma_bar_inside(total as int, step as int, i as int);
        }
        out.push(i * step);
        i += 1;
    }
    out
}

/// There are no more bars than are drawn, and they reach the end.
proof fn lemma_bars_fit(total: int, step: int)
    requires
        1 <= step,
        0 <= total,
        (total + 1999) / 2000 <= step,
    ensures
        0 <= total / step <= 2000,
        0 <= total - (total / step) * step < step,
{
    let q = total / step;
    let r = total % step;
    assert(total == q * step + r && 0 <= r < step) by (nonlinear_arith)
        requires
            q == total / step,
            r == total % step,
            1 <= step,
    ;
    assert(total <= 2000 * step);
    assert(0 <= q <= 2000) by (nonlinear_arith)
        requires
            total == q * step + r,
            0 <= r < step,
            0 <= total <= 2000 * step,
    ;
}

/// Every bar shows a sample that is there.
proof fn lemma_bar_inside(total: int, step: int, i: int)
    requires
        1 <= step,
        0 <= i < total / step,
        0 <= total,
    ensures
        0 <= i * step < total,
{
    let q = total / step;
    assert(q * step <= total) by (nonlinear_arith)
        requires
            q == total / step,
            1 <= step,
            0 <= total,
    ;
    assert(0 <= i * step < q * step) by (nonlinear_arith)
        requires
            0 <= i < q,
            1 <= step,
    ;
}

} // verus!
