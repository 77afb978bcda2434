//! What the program promises about versions, updates and its window.

use vstd::prelude::*;

use crate::engine::AlignmentResult;
use crate::numbers;
use crate::text;
use crate::text_facts;
use crate::text_laws;
use crate::updater;
use crate::updater::AppVersion;
use crate::updater::InstallKind;
use crate::updater::UpdateInfo;
use crate::updater::UpdateUrgency;
use crate::window;
use crate::window::AlignmentPoll;
use crate::window::ChronoSubApp;
use crate::window::DroppedFile;
use crate::window::FileKind;
use crate::window::UpdatePoll;
use crate::window::WindowModel;

verus! {

// ---------------------------------------------------------------------------
// Versions
// ---------------------------------------------------------------------------

/// A part of a version is read as an unsigned number of 64 bits.
pub proof fn law_version_part(s: Seq<char>)
    ensures
        updater::u64_value(s) == numbers::unsigned_value(s, 0xffff_ffff_ffff_ffff),
{
}

/// A version is read part by part, with any number of `v` in front: three parts
/// with full stops between them, each of them a number.
pub proof fn law_version_parts(k: nat, a: Seq<char>, b: Seq<char>, c: Seq<char>)
    requires
        a.len() > 0 ==> a[0] != 'v',
        forall|i: int| 0 <= i < a.len() ==> a[i] != '.',
        forall|i: int| 0 <= i < b.len() ==> b[i] != '.',
        forall|i: int| 0 <= i < c.len() ==> c[i] != '.',
    ensures
        ({
            let s = Seq::new(k, |i: int| 'v') + (a + seq!['.'] + (b + seq!['.'] + c));
            let x = updater::u64_value(a);
            let y = updater::u64_value(b);
            let z = updater::u64_value(c);
            let r = updater::version_value(s);
            &&& x is Some && y is Some && z is Some ==> r is Some && r->0.major == x->0
                && r->0.minor == y->0 && r->0.patch == z->0
            &&& x is None || y is None || z is None ==> r is None
        }),
{
    let body = a + seq!['.'] + (b + seq!['.'] + c);
    assert(body[0] == if a.len() > 0 {
        a[0]
    } else {
        '.'
    });
    text_laws::law_without_leading(k, 'v', body);
    text_facts::lemma_pieces_field(a, '.', b + seq!['.'] + c);
    text_facts::lemma_pieces_field(b, '.', c);
    text_facts::lemma_pieces_last_field(c, '.');
    assert(text::pieces(body, seq!['.']) =~= seq![a, b, c]);
    lemma_u64_range(a);
    lemma_u64_range(b);
    lemma_u64_range(c);
}

/// A part of a version fits in 64 bits.
proof fn lemma_u64_range(s: Seq<char>)
    ensures
        updater::u64_value(s) is Some ==> 0 <= updater::u64_value(s)->0 <= u64::MAX,
{
    let body = numbers::without_sign(s, false);
    if numbers::all_digits(body) {
        numbers::lemma_digits_value_nonnegative(body);
    }
}

/// A text of fewer or more than three parts is no version.
pub proof fn law_version_has_three_parts(k: nat, s: Seq<char>)
    requires
        s.len() > 0 ==> s[0] != 'v',
        text::pieces(s, seq!['.']).len() != 3,
    ensures
        updater::version_value(Seq::new(k, |i: int| 'v') + s) is None,
{
    text_laws::law_without_leading(k, 'v', s);
}

/// The commit count replaces the minor part of a version and leaves the others;
/// without a version, or without a count, there is nothing to replace.
pub proof fn law_count_replaces_minor(base: Seq<char>, count: Seq<char>)
    ensures
        ({
            let v = updater::version_value(base);
            let n = updater::u64_value(count);
            let r = updater::counted_version(base, count);
            &&& v is None || n is None ==> r is None
            &&& v is Some && n is Some ==> r is Some && r->0.major == v->0.major && r->0.patch
                == v->0.patch && r->0.minor == n->0
        }),
{
    lemma_u64_range(count);
}

/// A version is written as its parts with full stops between them.
pub proof fn law_version_written(v: AppVersion)
    ensures
        updater::version_text(v) == numbers::decimal(v.major as int) + seq!['.']
            + numbers::decimal(v.minor as int) + seq!['.'] + numbers::decimal(v.patch as int),
{
    assert(updater::version_text(v) =~= numbers::decimal(v.major as int) + seq!['.']
        + numbers::decimal(v.minor as int) + seq!['.'] + numbers::decimal(v.patch as int));
}

/// The commit count comes from the environment, or else from the repository
/// without the white space round it, or else from the version of the package,
/// or else is zero.
pub proof fn law_commit_count(
    e: Seq<char>,
    repository: Option<Seq<char>>,
    before: Seq<char>,
    r: Seq<char>,
    after: Seq<char>,
    package: Option<Seq<char>>,
    a: Seq<char>,
    b: Seq<char>,
    rest: Seq<char>,
)
    requires
        r.len() > 0,
        !text::is_space(r[0]) && !text::is_space(r[r.len() - 1]),
        forall|i: int| 0 <= i < before.len() ==> text::is_space(#[trigger] before[i]),
        forall|i: int| 0 <= i < after.len() ==> text::is_space(#[trigger] after[i]),
        forall|i: int| 0 <= i < a.len() ==> a[i] != '.',
        forall|i: int| 0 <= i < b.len() ==> b[i] != '.',
    ensures
        updater::commit_count_text(Some(e), repository, package) == e,
        updater::commit_count_text(None, Some(before + r + after), package) == r,
        updater::commit_count_text(None, Some(before), package) == updater::commit_count_text(
            None,
            None,
            package,
        ),
        updater::commit_count_text(None, None, Some(a + seq!['.'] + b)) == b,
        updater::commit_count_text(None, None, Some(a + seq!['.'] + (b + seq!['.'] + rest))) == b,
        updater::commit_count_text(None, None, Some(a)) == seq!['0'],
        updater::commit_count_text(None, None, None) == seq!['0'],
{
    let none = Seq::<char>::empty();
    text_laws::law_trimmed(before, r, after);
    text_laws::law_trimmed(before, none, none);
    assert(before + none + none =~= before);
    text_facts::lemma_pieces_field(a, '.', b);
    text_facts::lemma_pieces_last_field(b, '.');
    text_facts::lemma_pieces_field(a, '.', b + seq!['.'] + rest);
    text_facts::lemma_pieces_field(b, '.', rest);
    text_facts::lemma_pieces_last_field(a, '.');
    reveal_strlit("0");
    assert("0"@ =~= seq!['0']);
}

/// The text of an optional string is its text.
pub proof fn law_text_of(s: &str, t: String)
    ensures
        updater::text_of(Some(s)) == Some(s@),
        updater::text_of(None) is None,
        window::message_of(Some(t)) == Some(t@),
        window::message_of(None) is None,
{
}

// ---------------------------------------------------------------------------
// Updates
// ---------------------------------------------------------------------------

/// An update is a minor one if and only if it stays within a major version and
/// its minor part is ahead.
pub proof fn law_minor_update(current: AppVersion, latest: AppVersion)
    ensures
        updater::urgency(current, latest) == UpdateUrgency::Minor <==> latest.major
            == current.major && latest.minor > current.minor,
        updater::urgency(current, latest) == UpdateUrgency::Major <==> latest.major
            > current.major,
{
}

/// A program below `.cargo/bin`, with either separator, was installed by cargo;
/// one elsewhere stands alone; and of one that is nowhere nothing is known.
pub proof fn law_install_kind(a: Seq<char>, b: Seq<char>, path: Seq<char>)
    requires
        !text::occurs(path, ".cargo/bin"@),
        !text::occurs(path, ".cargo\\bin"@),
    ensures
        updater::install_kind(Some(a + ".cargo/bin"@ + b)) == InstallKind::CargoInstalled,
        updater::install_kind(Some(a + ".cargo\\bin"@ + b)) == InstallKind::CargoInstalled,
        updater::install_kind(Some(path)) == InstallKind::StandaloneBinary,
        updater::install_kind(None) == InstallKind::Unknown,
{
    text_laws::law_occurs(a, ".cargo/bin"@, b, a, 0);
    text_laws::law_occurs(a, ".cargo\\bin"@, b, a, 0);
}

/// Each published platform has its own asset, and every other has none.
pub proof fn law_platforms(os: Seq<char>, arch: Seq<char>)
    ensures
        (os == "windows"@ || os == "macos"@ || os == "linux"@) && (arch == "x86_64"@ || arch
            == "aarch64"@) ==> updater::platform_text(os, arch) == os + seq!['-'] + arch,
        os != "windows"@ && os != "macos"@ && os != "linux"@ ==> updater::platform_text(os, arch)
            == "your-platform"@,
        arch != "x86_64"@ && arch != "aarch64"@ ==> updater::platform_text(os, arch)
            == "your-platform"@,
{
    reveal_strlit("-");
    assert("-"@ =~= seq!['-']);
}

/// Cargo installs are told the cargo command, standalone programs the asset, and
/// others both ways.
pub proof fn law_instructions(name: Seq<char>, platform: Seq<char>)
    ensures
        updater::instructions_text(InstallKind::CargoInstalled, name, platform)
            == "Installed via cargo. Update with:\n\ncargo install --force "@ + name,
        updater::instructions_text(InstallKind::StandaloneBinary, name, platform)
            == "Standalone binary detected. Download the "@ + platform
            + " asset from GitHub releases and replace your current executable."@,
        updater::instructions_text(InstallKind::Unknown, name, platform)
            == "Could not detect installation type. For cargo installs use `cargo install --force "@
            + name + "`; otherwise download your platform binary from GitHub releases."@,
{
}

/// An address without a slash names no repository, however many slashes follow.
pub proof fn law_no_repository(s: Seq<char>, slashes: nat)
    requires
        forall|i: int| 0 <= i < s.len() ==> s[i] != '/',
    ensures
        updater::owner_and_name(s + Seq::new(slashes, |i: int| '/')) is None,
{
    text_laws::law_without_trailing(slashes, '/', s);
    text_facts::lemma_pieces_last_field(s, '/');
}

/// What is known of a release is what its record holds.
pub proof fn law_release_says(u: UpdateInfo)
    ensures
        u@.version == u.latest_version,
        u@.url == u.html_url@,
        u@.urgency == u.urgency,
        u@.instructions == u.instructions@,
{
}

/// How updates are announced.
pub proof fn law_urgency_labels()
    ensures
        window::urgency_label(UpdateUrgency::Major) == "Major update available"@,
        window::urgency_label(UpdateUrgency::Minor) == "Significant update available"@,
        window::urgency_label(UpdateUrgency::UpToDate) == "Up to date"@,
{
}

// ---------------------------------------------------------------------------
// Dropped files
// ---------------------------------------------------------------------------

/// Six extensions are those of videos, one is that of subtitles, and no other is
/// taken for either.
pub proof fn law_file_kinds(ext: Seq<char>)
    ensures
        window::kind_of(ext) == FileKind::Video <==> (ext == "mp4"@ || ext == "mkv"@ || ext
            == "avi"@ || ext == "mov"@ || ext == "webm"@ || ext == "m4v"@),
        window::kind_of(ext) == FileKind::Subtitles <==> ext == "srt"@,
{
    reveal_strlit("mp4");
    reveal_strlit("mkv");
    reveal_strlit("avi");
    reveal_strlit("mov");
    reveal_strlit("webm");
    reveal_strlit("m4v");
    reveal_strlit("srt");
    if ext == "srt"@ {
        assert(ext[0] == 's');
        assert("mp4"@[0] == 'm' && "mkv"@[0] == 'm' && "avi"@[0] == 'a' && "mov"@[0] == 'm'
            && "webm"@[0] == 'w' && "m4v"@[0] == 'm');
    }
}

/// Capital ASCII letters are made small, and other ASCII characters stay.
pub proof fn law_lower_case(s: Seq<char>, i: int)
    requires
        forall|j: int| 0 <= j < s.len() ==> '\0' <= #[trigger] s[j] <= '\u{7f}',
        0 <= i < s.len(),
    ensures
        window::lowered(s).len() == s.len(),
        65 <= s[i] as int <= 90 ==> window::lowered(s)[i] as int == s[i] as int + 32,
        !(65 <= s[i] as int <= 90) ==> window::lowered(s)[i] == s[i],
{
    assert(vstd::utf8::is_ascii_chars(s));
}

/// Text that is not all ASCII is made small as the standard library does it.
pub proof fn law_lower_case_beyond_ascii(s: Seq<char>, i: int)
    requires
        0 <= i < s.len(),
        s[i] as int > 127,
    ensures
        window::lowered(s) == window::lowercase_text(s),
{
    assert(!vstd::utf8::is_ascii_chars(s));
}

/// A file behind others takes the place of what it is, and says so, or says that
/// both files are there; other files, and files without a path, change nothing.
pub proof fn law_last_file_counts<P, F>(
    m: WindowModel<P, F>,
    files: Seq<DroppedFile<P>>,
    file: DroppedFile<P>,
)
    ensures
        ({
            let before = window::after_drops(m, files);
            let n = window::after_drops(m, files.push(file));
            let kind = window::kind_of(window::lowered(file.extension@));
            let counts = file.path is Some;
            &&& window::after_drops(m, Seq::empty()) == m
            &&& counts && kind == FileKind::Video ==> n == (WindowModel {
                video: file.path,
                status: "Video file loaded. Drop an SRT file to continue."@,
                ..before
            })
            &&& counts && kind == FileKind::Subtitles ==> n == (WindowModel {
                subtitles: file.path,
                status: "Subtitle file loaded. Drop a video file to continue."@,
                ..before
            })
            &&& !counts || kind == FileKind::Other ==> n == before
        }),
{
    assert(files.push(file).drop_last() =~= files);
}

/// Once both files are there, the window says so after every drop, and without
/// a drop it says what it said.
pub proof fn law_both_files_loaded<P, F>(m: WindowModel<P, F>, files: Seq<DroppedFile<P>>)
    ensures
        ({
            let before = window::after_drops(m, files);
            let n = window::after_drop(m, files);
            &&& files.len() == 0 ==> n == m
            &&& files.len() > 0 && before.video is Some && before.subtitles is Some ==> n == (
            WindowModel {
                status: "Both files loaded. Click \u{26a1} Synchronize Subtitles to begin."@,
                ..before
            })
            &&& before.video is None || before.subtitles is None ==> n == before
        }),
{
}

// ---------------------------------------------------------------------------
// The window
// ---------------------------------------------------------------------------

/// The window knows what its fields hold.
pub proof fn law_window_knows<P, F>(app: ChronoSubApp<P, F>)
    ensures
        app@.video == app.video_path,
        app@.subtitles == app.sub_path,
        app@.status == app.status@,
        app@.offset == app.offset_found,
        app@.energy == app.audio_energy@,
        app@.signal == app.sub_signal@,
        app@.processing == app.processing,
        app@.awaiting_result == app.awaiting_result,
        app@.version == app.current_version,
        app@.awaiting_update == app.awaiting_update,
        app.save_status is Some ==> app@.save_status == Some(app.save_status->0@),
        app.save_status is None ==> app@.save_status is None,
        app.update_error is Some ==> app@.update_error == Some(app.update_error->0@),
        app.update_error is None ==> app@.update_error is None,
        app.available_update is Some ==> app@.update == Some(app.available_update->0@),
        app.available_update is None ==> app@.update is None,
{
}

/// What holds of the window at any time.
pub proof fn law_window_in_order<P, F>(m: WindowModel<P, F>)
    requires
        m.wf(),
    ensures
        m.processing == m.awaiting_result,
        m.processing ==> m.video is Some && m.subtitles is Some && m.offset is None
            && m.energy.len() == 0 && m.signal.len() == 0 && m.save_status is None,
        m.save_status is Some ==> m.offset is Some,
        m.update is Some ==> m.update->0.urgency != UpdateUrgency::UpToDate,
        m.awaiting_update ==> m.update is None && m.update_error is None,
{
}

/// An alignment that is awaited and finishes leaves its result and its offset as
/// shown; nothing else changes but that the window waits no longer.
pub proof fn law_result_is_shown<P, F>(
    m: WindowModel<P, F>,
    result: AlignmentResult<F>,
    shown: String,
    e: String,
)
    requires
        m.awaiting_result,
    ensures
        window::after_alignment_poll(m, AlignmentPoll::Finished { result, shown }) == (WindowModel {
            offset: Some(result.offset_secs),
            energy: result.audio_energy@,
            signal: result.sub_signal@,
            status: "Synchronization complete! Detected offset: "@ + shown@ + " s"@,
            processing: false,
            awaiting_result: false,
            ..m
        }),
        window::after_alignment_poll(m, AlignmentPoll::<F>::Failed(e)) == (WindowModel {
            status: "Error: "@ + e@,
            processing: false,
            awaiting_result: false,
            ..m
        }),
        window::after_alignment_poll(m, AlignmentPoll::<F>::Disconnected) == (WindowModel {
            status: "Processing thread disconnected unexpectedly."@,
            processing: false,
            awaiting_result: false,
            ..m
        }),
        window::after_alignment_poll(m, AlignmentPoll::<F>::Pending) == m,
{
}

/// A window that awaits no alignment is changed by no outcome of one.
pub proof fn law_no_result_awaited<P, F>(m: WindowModel<P, F>, event: AlignmentPoll<F>)
    requires
        !m.awaiting_result,
    ensures
        window::after_alignment_poll(m, event) == m,
{
}

/// An update check that is awaited and ends leaves the release, if it matters,
/// or the error, and nothing else changes.
pub proof fn law_update_is_kept<P, F>(m: WindowModel<P, F>, u: UpdateInfo, e: String)
    requires
        m.awaiting_update,
    ensures
        u.urgency != UpdateUrgency::UpToDate ==> window::after_update_poll(
            m,
            UpdatePoll::Finished(u),
        ) == (WindowModel {
            update: Some(u@),
            update_error: None,
            awaiting_update: false,
            ..m
        }),
        u.urgency == UpdateUrgency::UpToDate ==> window::after_update_poll(
            m,
            UpdatePoll::Finished(u),
        ) == (WindowModel { update_error: None, awaiting_update: false, ..m }),
        window::after_update_poll(m, UpdatePoll::Failed(e)) == (WindowModel {
            update_error: Some(e@),
            awaiting_update: false,
            ..m
        }),
        window::after_update_poll(m, UpdatePoll::Disconnected) == (WindowModel {
            update_error: Some("Update checker disconnected unexpectedly."@),
            awaiting_update: false,
            ..m
        }),
        window::after_update_poll(m, UpdatePoll::Pending) == m,
{
}

/// An alignment that starts clears what is left of an earlier one, and touches
/// neither the files nor what is known of updates.
pub proof fn law_start_clears<P, F>(m: WindowModel<P, F>)
    ensures
        ({
            let n = window::after_start(m);
            &&& n.processing && n.awaiting_result
            &&& n.offset is None && n.energy.len() == 0 && n.signal.len() == 0
            &&& n.save_status is None
            &&& n.status
                == "Analysing audio with Symphonia & computing FFT cross-correlation\u{2026}"@
            &&& n.video == m.video && n.subtitles == m.subtitles
            &&& n.version == m.version && n.awaiting_update == m.awaiting_update
            &&& n.update == m.update && n.update_error == m.update_error
        }),
{
}

/// A saved file is named, and a failure is explained.
pub proof fn law_saved_or_not(name: String, e: String)
    ensures
        window::save_text(Ok(name)) == "Saved \u{2192} "@ + name@,
        window::save_text(Err(e)) == "Save failed: "@ + e@,
{
}

/// Early subtitles are announced as such, late ones as such, and others as in
/// sync.
pub proof fn law_offset_hints(below: bool)
    ensures
        window::offset_hint_text(true, below)
            == "Subtitles are ahead of the audio \u{2192} will be shifted back."@,
        window::offset_hint_text(false, true)
            == "Subtitles are behind the audio \u{2192} will be advanced."@,
        window::offset_hint_text(false, false) == "Subtitles are already in sync."@,
{
}

/// A bar of the overview stands for enough samples that the bars fit side by
/// side and are not too many, and for no more than that takes.
pub proof fn law_bars_are_wide_enough(a: int, b: int, per_bar: int)
    requires
        0 <= a,
        0 <= b,
        0 <= per_bar,
    ensures
        ({
            let total = window::longer(a, b);
            let step = window::bar_step(total, per_bar);
            &&& a <= total && b <= total && (total == a || total == b)
            &&& 1 <= step && per_bar <= step && total <= 2_000 * step
            &&& step == 1 || step == per_bar || total > 2_000 * (step - 1)
            &&& window::PREVIEW_SAMPLES == 2_000
        }),
{
}

} // verus!
