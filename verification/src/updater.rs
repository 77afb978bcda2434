//! Versions of the program, and what is said about newer ones.

use vstd::prelude::*;

use crate::numbers;
use crate::text;
use crate::text_facts;

verus! {

// ---------------------------------------------------------------------------
// Versions
// ---------------------------------------------------------------------------

/// A version `MAJOR.MINOR.PATCH`.
#[derive(Debug, Clone, Copy, PartialEq, Eq, PartialOrd, Ord)]
pub struct AppVersion {
    pub major: u64,
    pub minor: u64,
    pub patch: u64,
}

/// What `s` stands for as an unsigned 64-bit number.
pub open spec fn u64_value(s: Seq<char>) -> Option<int> {
    numbers::unsigned_value(s, u64::MAX as int)
}

/// The version that `s` names: three numbers with full stops between them,
/// and any number of `v` in front.
pub open spec fn version_value(s: Seq<char>) -> Option<AppVersion> {
    let parts = text::pieces(text::without_leading(s, 'v'), seq!['.']);
    if parts.len() == 3 && u64_value(parts[0]) is Some && u64_value(parts[1]) is Some && u64_value(
        parts[2],
    ) is Some {
        Some(
            AppVersion {
                major: u64_value(parts[0])->0 as u64,
                minor: u64_value(parts[1])->0 as u64,
                patch: u64_value(parts[2])->0 as u64,
            },
        )
    } else {
        None
    }
}

/// The version that `base` names, with the number that `count` stands for as
/// its minor part.
pub open spec fn counted_version(base: Seq<char>, count: Seq<char>) -> Option<AppVersion> {
    match version_value(base) {
        Some(v) => match u64_value(count) {
            Some(n) => Some(AppVersion { minor: n as u64, ..v }),
            None => None,
        },
        None => None,
    }
}

impl AppVersion {
    /// Parse `MAJOR.MINOR.PATCH`, with or without a leading `v`.
    pub fn parse(input: &str) -> (r: Option<Self>)
        ensures
            r == version_value(input@),
    {
        let dot: [char; 1] = ['.'];
        let chars: Vec<char> = text::chars_of(input);
        let body: &[char] = text::trim_leading(chars.as_slice(), 'v');
        let parts: Vec<Vec<char>> = text::split(body, dot.as_slice());
        proof {
            assert(dot@ =~= seq!['.']);
            assert(text::texts(parts@) == text::pieces(
                text::without_leading(input@, 'v'),
                seq!['.'],
            ));
        }
        if parts.len() != 3 {
            return None;
        }
        proof {
            let p = text::texts(parts@);
            assert(p[0] == parts@[0]@ && p[1] == parts@[1]@ && p[2] == parts@[2]@);
        }
        match (
            numbers::parse_u64(parts[0].as_slice()),
            numbers::parse_u64(parts[1].as_slice()),
            numbers::parse_u64(parts[2].as_slice()),
        ) {
            (Some(major), Some(minor), Some(patch)) => Some(AppVersion { major, minor, patch }),
            _ => None,
        }
    }

    /// The version `base_version` with the commit count as its minor part.
    pub fn with_commit_count_minor(base_version: &str, commit_count: &str) -> (r: Option<Self>)
        ensures
            r == counted_version(base_version@, commit_count@),
    {
        match AppVersion::parse(base_version) {
            Some(base) => {
                let count: Vec<char> = text::chars_of(commit_count);
                match numbers::parse_u64(count.as_slice()) {
                    Some(minor) => Some(
                        AppVersion { major: base.major, minor, patch: base.patch },
                    ),
                    None => None,
                }
            },
            None => None,
        }
    }
}

/// How a version is written.
pub open spec fn version_text(v: AppVersion) -> Seq<char> {
    numbers::decimal(v.major as int) + seq!['.'] + (numbers::decimal(v.minor as int) + seq!['.']
        + numbers::decimal(v.patch as int))
}

/// Write a version as `MAJOR.MINOR.PATCH`.
pub fn version_string(version: AppVersion) -> (r: String)
    ensures
        r@ == version_text(version),
{
    let mut out = String::new();
    numbers::push_decimal(&mut out, version.major);
    out.push('.');
    numbers::push_decimal(&mut out, version.minor);
    out.push('.');
    numbers::push_decimal(&mut out, version.patch);
    proof {
        assert(out@ =~= version_text(version));
    }
    out
}

/// The version of the running program, from the version of its package and the
/// commit count it was built at. Where the count is no number the version of
/// the package stands, and where that cannot be read either, `0.0.0`.
pub fn current_app_version(package_version: &str, commit_count: &str) -> (r: AppVersion)
    ensures
        r == match counted_version(package_version@, commit_count@) {
            Some(v) => v,
            None => match version_value(package_version@) {
                Some(v) => v,
                None => AppVersion { major: 0, minor: 0, patch: 0 },
            },
        },
{
    match AppVersion::with_commit_count_minor(package_version, commit_count) {
        Some(v) => v,
        None => match AppVersion::parse(package_version) {
            Some(v) => v,
            None => AppVersion { major: 0, minor: 0, patch: 0 },
        },
    }
}

/// The number of commits that a program is built at: what the environment
/// says, or else what the repository says, or else the second number of the
/// version of the package, or else zero.
pub open spec fn commit_count_text(
    environment: Option<Seq<char>>,
    repository: Option<Seq<char>>,
    package_version: Option<Seq<char>>,
) -> Seq<char> {
    if environment is Some {
        environment->0
    } else if repository is Some && text::trimmed(repository->0).len() > 0 {
        text::trimmed(repository->0)
    } else if package_version is Some && text::pieces(package_version->0, seq!['.']).len() > 1 {
        text::pieces(package_version->0, seq!['.'])[1]
    } else {
        "0"@
    }
}

/// The text of an optional string.
pub open spec fn text_of(s: Option<&str>) -> Option<Seq<char>> {
    match s {
        Some(t) => Some(t@),
        None => None,
    }
}

/// The number of commits that a program is built at.
pub fn resolve_commit_count(
    environment: Option<&str>,
    repository: Option<&str>,
    package_version: Option<&str>,
) -> (r: String)
    ensures
        r@ == commit_count_text(
            text_of(environment),
            text_of(repository),
            text_of(package_version),
        ),
{
    let dot: [char; 1] = ['.'];
    proof {
        assert(dot@ =~= seq!['.']);
    }
    if let Some(count) = environment {
        return count.to_owned();
    }
    if let Some(output) = repository {
        let chars: Vec<char> = text::chars_of(output);
        let count: &[char] = text::trim(chars.as_slice());
        if count.len() > 0 {
            return text::string_of(count);
        }
    }
    if let Some(version) = package_version {
        let chars: Vec<char> = text::chars_of(version);
        let parts: Vec<Vec<char>> = text::split(chars.as_slice(), dot.as_slice());
        proof {
            assert(text::texts(parts@) == text::pieces(version@, seq!['.']));
        }
        if parts.len() > 1 {
            proof {
                assert(text::texts(parts@)[1] == parts@[1]@);
            }
            return text::string_of(parts[1].as_slice());
        }
    }
    "0".to_owned()
}

/// Whether the command line asks for the version.
pub fn asks_for_version(args: &[String]) -> (r: bool)
    ensures
        r == exists|i: int|
            0 <= i < args@.len() && ((#[trigger] args@[i])@ == "--version"@ || args@[i]@ == "-V"@),
{
    let mut i: usize = 0;
    while i < args.len()
        invariant
            i <= args@.len(),
            forall|j: int|
                0 <= j < i ==> !((#[trigger] args@[j])@ == "--version"@ || args@[j]@ == "-V"@),
        decreases args@.len() - i,
    {
        if text::same(args[i].as_str(), "--version") || text::same(args[i].as_str(), "-V") {
            return true;
        }
        i += 1;
    }
    false
}

// ---------------------------------------------------------------------------
// Newer versions
// ---------------------------------------------------------------------------

/// How pressing an update is.
#[derive(Debug, Clone, Copy, PartialEq, Eq, Structural)]
pub enum UpdateUrgency {
    UpToDate,
    Minor,
    Major,
}

/// How pressing it is to go from `current` to `latest`.
pub open spec fn urgency(current: AppVersion, latest: AppVersion) -> UpdateUrgency {
    if latest.major > current.major {
        UpdateUrgency::Major
    } else if latest.major == current.major && latest.minor > current.minor {
        UpdateUrgency::Minor
    } else {
        UpdateUrgency::UpToDate
    }
}

/// Decide how pressing it is to go from `current` to `latest`.
pub fn classify_update(current: AppVersion, latest: AppVersion) -> (r: UpdateUrgency)
    ensures
        r == urgency(current, latest),
{
    if latest.major > current.major {
        UpdateUrgency::Major
    } else if latest.major == current.major && latest.minor > current.minor {
        UpdateUrgency::Minor
    } else {
        UpdateUrgency::UpToDate
    }
}

/// A release that was found, and what to do about it.
#[derive(Debug, Clone)]
pub struct UpdateInfo {
    pub latest_version: AppVersion,
    pub html_url: String,
    pub urgency: UpdateUrgency,
    pub instructions: String,
}

/// What is known of a release.
#[verifier::ext_equal]
pub struct Release {
    pub version: AppVersion,
    pub url: Seq<char>,
    pub urgency: UpdateUrgency,
    pub instructions: Seq<char>,
}

impl View for UpdateInfo {
    type V = Release;

    open spec fn view(&self) -> Release {
        Release {
            version: self.latest_version,
            url: self.html_url@,
            urgency: self.urgency,
            instructions: self.instructions@,
        }
    }
}

/// How the program was installed.
#[derive(Debug, Clone, Copy, PartialEq, Eq, Structural)]
pub enum InstallKind {
    CargoInstalled,
    StandaloneBinary,
    Unknown,
}

/// How the program at `exe_path` was installed. Cargo puts programs into
/// `.cargo/bin`, which is written with a backslash on Windows.
pub open spec fn install_kind(exe_path: Option<Seq<char>>) -> InstallKind {
    match exe_path {
        None => InstallKind::Unknown,
        Some(path) => if text::occurs(path, ".cargo/bin"@) || text::occurs(path, ".cargo\\bin"@) {
            InstallKind::CargoInstalled
        } else {
            InstallKind::StandaloneBinary
        },
    }
}

/// Tell how the program was installed from where its executable lies.
pub fn detect_install_kind(exe_path: Option<&str>) -> (r: InstallKind)
    ensures
        r == install_kind(text_of(exe_path)),
{
    match exe_path {
        None => InstallKind::Unknown,
        Some(path) => {
            let chars: Vec<char> = text::chars_of(path);
            let slash: Vec<char> = text::chars_of(".cargo/bin");
            let backslash: Vec<char> = text::chars_of(".cargo\\bin");
            if text::contains(chars.as_slice(), slash.as_slice()) || text::contains(
                chars.as_slice(),
                backslash.as_slice(),
            ) {
                InstallKind::CargoInstalled
            } else {
                InstallKind::StandaloneBinary
            }
        },
    }
}

/// The name of the release asset for an operating system and an architecture.
pub open spec fn platform_text(os: Seq<char>, arch: Seq<char>) -> Seq<char> {
    let known_os = os == "windows"@ || os == "macos"@ || os == "linux"@;
    let known_arch = arch == "x86_64"@ || arch == "aarch64"@;
    if known_os && known_arch {
        os + "-"@ + arch
    } else {
        "your-platform"@
    }
}

/// The name of the release asset for an operating system and an architecture.
pub fn platform_hint(os: &str, arch: &str) -> (r: String)
    ensures
        r@ == platform_text(os@, arch@),
{
    let known_os: bool = text::same(os, "windows") || text::same(os, "macos") || text::same(
        os,
        "linux",
    );
    let known_arch: bool = text::same(arch, "x86_64") || text::same(arch, "aarch64");
    if known_os && known_arch {
        text::concat(text::concat(os, "-").as_str(), arch)
    } else {
        "your-platform".to_owned()
    }
}

/// What the user is told about updating.
pub open spec fn instructions_text(
    kind: InstallKind,
    package_name: Seq<char>,
    platform: Seq<char>,
) -> Seq<char> {
    match kind {
        InstallKind::CargoInstalled =>
            "Installed via cargo. Update with:\n\ncargo install --force "@ + package_name,
        InstallKind::StandaloneBinary => "Standalone binary detected. Download the "@ + platform
            + " asset from GitHub releases and replace your current executable."@,
        InstallKind::Unknown =>
            "Could not detect installation type. For cargo installs use `cargo install --force "@
            + package_name
            + "`; otherwise download your platform binary from GitHub releases."@,
    }
}

/// Tell the user how to update. `platform` names the release asset.
pub fn update_instructions(kind: InstallKind, package_name: &str, platform: &str) -> (r: String)
    ensures
        r@ == instructions_text(kind, package_name@, platform@),
{
    match kind {
        InstallKind::CargoInstalled => text::concat(
            "Installed via cargo. Update with:\n\ncargo install --force ",
            package_name,
        ),
        InstallKind::StandaloneBinary => text::concat(
            text::concat("Standalone binary detected. Download the ", platform).as_str(),
            " asset from GitHub releases and replace your current executable.",
        ),
        InstallKind::Unknown => text::concat(
            text::concat(
                "Could not detect installation type. For cargo installs use `cargo install --force ",
                package_name,
            ).as_str(),
            "`; otherwise download your platform binary from GitHub releases.",
        ),
    }
}

/// Where the latest release of a repository is announced.
pub fn release_url(owner: &str, repo: &str) -> (r: String)
    ensures
        r@ == "https://api.github.com/repos/"@ + owner@ + "/"@ + repo@ + "/releases/latest"@,
{
    let mut out: String = text::concat("https://api.github.com/repos/", owner);
    out.append("/");
    out.append(repo);
    out.append("/releases/latest");
    out
}

/// How the program names itself in a request.
pub fn user_agent(package_name: &str, package_version: &str) -> (r: String)
    ensures
        r@ == package_name@ + "/"@ + package_version@,
{
    text::concat(text::concat(package_name, "/").as_str(), package_version)
}

/// What the latest release means for the running program: `tag_name` and
/// `html_url` announce it, `current` is running from `exe_path`.
pub fn evaluate_release(
    tag_name: &str,
    html_url: String,
    current: AppVersion,
    package_name: &str,
    exe_path: Option<&str>,
    platform: &str,
) -> (r: Result<UpdateInfo, String>)
    ensures
        match version_value(tag_name@) {
            Some(latest) => r matches Ok(info) && info@ == (Release {
                version: latest,
                url: html_url@,
                urgency: urgency(current, latest),
                instructions: instructions_text(
                    install_kind(text_of(exe_path)),
                    package_name@,
                    platform@,
                ),
            }),
            None => r matches Err(e) && e@ == "Unsupported release tag version: "@ + tag_name@,
        },
{
    match AppVersion::parse(tag_name) {
        Some(latest) => {
            let urgency: UpdateUrgency = classify_update(current, latest);
            let kind: InstallKind = detect_install_kind(exe_path);
            let instructions: String = update_instructions(kind, package_name, platform);
            Ok(UpdateInfo { latest_version: latest, html_url, urgency, instructions })
        },
        None => Err(text::concat("Unsupported release tag version: ", tag_name)),
    }
}

/// The last two parts of a repository's address, slashes at its end aside.
pub open spec fn owner_and_name(repo_url: Seq<char>) -> Option<(Seq<char>, Seq<char>)> {
    let parts = text::pieces(text::without_trailing(repo_url, '/'), seq!['/']);
    if parts.len() < 2 {
        None
    } else {
        Some((parts[parts.len() - 2], parts[parts.len() - 1]))
    }
}

/// The owner and the name of the repository at `repo_url`.
pub fn parse_repository_owner_and_name(repo_url: &str) -> (r: Option<(String, String)>)
    ensures
        match r {
            Some((owner, name)) => owner_and_name(repo_url@) == Some((owner@, name@)),
            None => owner_and_name(repo_url@) is None,
        },
{
    let slash: [char; 1] = ['/'];
    let chars: Vec<char> = text::chars_of(repo_url);
    let body: &[char] = text::trim_trailing(chars.as_slice(), '/');
    let parts: Vec<Vec<char>> = text::split(body, slash.as_slice());
    let n: usize = parts.len();
    proof {
        assert(slash@ =~= seq!['/']);
        assert(text::texts(parts@) == text::pieces(
            text::without_trailing(repo_url@, '/'),
            seq!['/'],
        ));
    }
    if n < 2 {
        return None;
    }
    proof {
        let p = text::texts(parts@);
        assert(p[n - 2] == parts@[n - 2]@ && p[n - 1] == parts@[n - 1]@);
    }
    Some((text::string_of(parts[n - 2].as_slice()), text::string_of(parts[n - 1].as_slice())))
}

// ---------------------------------------------------------------------------
// Laws
// ---------------------------------------------------------------------------

/// Reading a written version gives the version back, with any number of `v`
/// in front.
pub proof fn law_version_round_trip(v: AppVersion, k: nat)
    ensures
        version_value(Seq::new(k, |i: int| 'v') + version_text(v)) == Some(v),
    decreases k,
{
    let w = version_text(v);
    let s = Seq::new(k, |i: int| 'v') + w;
    let a = numbers::decimal(v.major as int);
    let b = numbers::decimal(v.minor as int);
    let c = numbers::decimal(v.patch as int);
    numbers::lemma_decimal_value(v.major as int);
    numbers::lemma_decimal_value(v.minor as int);
    numbers::lemma_decimal_value(v.patch as int);
    if k > 0 {
        law_version_round_trip(v, (k - 1) as nat);
        assert(s[0] == 'v');
        assert(s.drop_first() =~= Seq::new((k - 1) as nat, |i: int| 'v') + w);
    } else {
        assert(s =~= w);
        assert(w[0] == a[0]);
        assert(numbers::is_digit(a[0]));
        numbers::lemma_digits_unsigned(a, false);
        numbers::lemma_digits_unsigned(b, false);
        numbers::lemma_digits_unsigned(c, false);
        text_facts::lemma_pieces_field(a, '.', b + seq!['.'] + c);
        text_facts::lemma_pieces_field(b, '.', c);
        text_facts::lemma_pieces_last_field(c, '.');
        assert(text::pieces(w, seq!['.']) =~= seq![a, b, c]);
    }
}

/// The commit count takes the place of the minor part and of nothing else.
pub proof fn law_commit_count_is_minor(base: AppVersion, count: u64)
    ensures
        counted_version(version_text(base), numbers::decimal(count as int)) == Some(
            AppVersion { major: base.major, minor: count, patch: base.patch },
        ),
{
    law_version_round_trip(base, 0);
    assert(Seq::new(0, |i: int| 'v') + version_text(base) =~= version_text(base));
    numbers::lemma_decimal_value(count as int);
    numbers::lemma_digits_unsigned(numbers::decimal(count as int), false);
}

/// The user is told of a release if and only if its major and minor parts,
/// taken in this order, are ahead.
pub proof fn law_prompted_when_ahead(current: AppVersion, latest: AppVersion)
    ensures
        urgency(current, latest) != UpdateUrgency::UpToDate <==> latest.major > current.major || (
        latest.major == current.major && latest.minor > current.minor),
{
}

/// The patch parts never matter.
pub proof fn law_patch_never_prompted(current: AppVersion, latest: AppVersion, p: u64, q: u64)
    ensures
        urgency(AppVersion { patch: p, ..current }, AppVersion { patch: q, ..latest }) == urgency(
            current,
            latest,
        ),
        urgency(current, AppVersion { patch: q, ..current }) == UpdateUrgency::UpToDate,
{
}

/// A release of a higher major version is always a major update.
pub proof fn law_major_always_prompted(current: AppVersion, latest: AppVersion)
    ensures
        urgency(current, latest) == UpdateUrgency::Major <==> latest.major > current.major,
{
}

/// The user is not told to go from a release back to the one before.
pub proof fn law_no_way_back(current: AppVersion, latest: AppVersion)
    requires
        urgency(current, latest) != UpdateUrgency::UpToDate,
    ensures
        urgency(latest, current) == UpdateUrgency::UpToDate,
{
}

/// The owner and the name of a repository are found at the end of its address,
/// however many slashes follow.
pub proof fn law_repository_address(
    host: Seq<char>,
    owner: Seq<char>,
    name: Seq<char>,
    slashes: nat,
)
    requires
        name.len() > 0,
        forall|i: int| 0 <= i < owner.len() ==> owner[i] != '/',
        forall|i: int| 0 <= i < name.len() ==> name[i] != '/',
    ensures
        owner_and_name(
            host + seq!['/'] + owner + seq!['/'] + name + Seq::new(slashes, |i: int| '/'),
        ) == Some((owner, name)),
    decreases slashes,
{
    let sep = seq!['/'];
    let address = host + sep + owner + sep + name;
    let s = address + Seq::new(slashes, |i: int| '/');
    if slashes > 0 {
        law_repository_address(host, owner, name, (slashes - 1) as nat);
        assert(s.last() == '/');
        assert(s.drop_last() =~= address + Seq::new((slashes - 1) as nat, |i: int| '/'));
    } else {
        assert(s =~= address);
        assert(address.last() == name.last());
        assert(name.last() == name[name.len() - 1]);
        text_facts::lemma_pieces_push(host, '/', owner);
        text_facts::lemma_pieces_push(host + sep + owner, '/', name);
        let parts = text::pieces(address, sep);
        assert(parts == text::pieces(host, sep).push(owner).push(name));
    }
}

} // verus!
