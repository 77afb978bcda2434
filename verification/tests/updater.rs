use chronosub::updater::{
    asks_for_version, classify_update, current_app_version, detect_install_kind, evaluate_release,
    parse_repository_owner_and_name, platform_hint, release_url, resolve_commit_count,
    update_instructions, user_agent, version_string, AppVersion, InstallKind, UpdateUrgency,
};

fn version(major: u64, minor: u64, patch: u64) -> AppVersion {
    AppVersion { major, minor, patch }
}

#[test]
fn commit_count_replaces_minor_version() {
    let version = AppVersion::with_commit_count_minor("1.7.3", "42").unwrap();
    assert_eq!(
        version,
        AppVersion {
            major: 1,
            minor: 42,
            patch: 3
        }
    );
}

#[test]
fn update_classification_prioritizes_major_and_minor() {
    let current = AppVersion {
        major: 1,
        minor: 10,
        patch: 0,
    };
    assert_eq!(
        classify_update(
            current,
            AppVersion {
                major: 2,
                minor: 0,
                patch: 0
            }
        ),
        UpdateUrgency::Major
    );
    assert_eq!(
        classify_update(
            current,
            AppVersion {
                major: 1,
                minor: 11,
                patch: 0
            }
        ),
        UpdateUrgency::Minor
    );
    assert_eq!(
        classify_update(
            current,
            AppVersion {
                major: 1,
                minor: 10,
                patch: 9
            }
        ),
        UpdateUrgency::UpToDate
    );
}

#[test]
fn versions_are_read() {
    assert_eq!(AppVersion::parse("1.2.3"), Some(version(1, 2, 3)));
    assert_eq!(AppVersion::parse("v1.2.3"), Some(version(1, 2, 3)));
    assert_eq!(AppVersion::parse("vvv0.0.0"), Some(version(0, 0, 0)));
    assert_eq!(AppVersion::parse("+1.02.3"), Some(version(1, 2, 3)));
    assert_eq!(AppVersion::parse("18446744073709551615.0.1"), Some(version(u64::MAX, 0, 1)));
    for bad in ["", "1", "1.2", "1.2.3.4", "1.2.", "1..3", "a.b.c", "1.2.3-rc1", "V1.2.3", " 1.2.3",
        "1.2.18446744073709551616", "-1.2.3", "1.2.3.", "v"] {
        assert_eq!(AppVersion::parse(bad), None, "{:?}", bad);
    }
}

#[test]
fn versions_come_back() {
    for v in [version(0, 0, 0), version(1, 42, 3), version(u64::MAX, u64::MAX, u64::MAX)] {
        let text = version_string(v);
        assert_eq!(text, format!("{}.{}.{}", v.major, v.minor, v.patch));
        for prefix in ["", "v", "vv"] {
            assert_eq!(AppVersion::parse(&format!("{prefix}{text}")), Some(v));
        }
        for count in [0, 7, u64::MAX] {
            assert_eq!(
                AppVersion::with_commit_count_minor(&text, &count.to_string()),
                Some(version(v.major, count, v.patch))
            );
        }
    }
    assert_eq!(version_string(version(10, 200, 3_000)), "10.200.3000");
}

#[test]
fn the_running_version() {
    assert_eq!(AppVersion::with_commit_count_minor("1.7.3", "x"), None);
    assert_eq!(AppVersion::with_commit_count_minor("1.7", "42"), None);
    assert_eq!(current_app_version("1.7.3", "42"), version(1, 42, 3));
    assert_eq!(current_app_version("1.7.3", "many"), version(1, 7, 3));
    assert_eq!(current_app_version("1.7.3", ""), version(1, 7, 3));
    assert_eq!(current_app_version("odd", "42"), version(0, 0, 0));
}

#[test]
fn the_commit_count() {
    let count = resolve_commit_count;
    assert_eq!(count(Some("12"), Some("34"), Some("1.5.0")), "12");
    assert_eq!(count(Some(""), Some("34"), Some("1.5.0")), "");
    assert_eq!(count(None, Some(" 34\n"), Some("1.5.0")), "34");
    assert_eq!(count(None, Some("\n"), Some("1.5.0")), "5");
    assert_eq!(count(None, None, Some("1.5.0")), "5");
    assert_eq!(count(None, None, Some("1")), "0");
    assert_eq!(count(None, None, None), "0");
}

#[test]
fn the_command_line() {
    let args = |v: &[&str]| v.iter().map(|s| s.to_string()).collect::<Vec<String>>();
    assert!(asks_for_version(&args(&["chronosub", "--version"])));
    assert!(asks_for_version(&args(&["chronosub", "x", "-V"])));
    assert!(!asks_for_version(&args(&["chronosub", "-v", "--Version", "--version=1"])));
    assert!(!asks_for_version(&[]));
}

#[test]
fn urgency_of_updates() {
    let samples = [version(0, 9, 9), version(1, 0, 0), version(1, 10, 0), version(1, 10, 7), version(2, 0, 0)];
    for a in samples {
        for b in samples {
            let told = classify_update(a, b);
            assert_eq!(told == UpdateUrgency::Major, b.major > a.major);
            assert_eq!(told != UpdateUrgency::UpToDate, (b.major, b.minor) > (a.major, a.minor));
            if told != UpdateUrgency::UpToDate {
                assert_eq!(classify_update(b, a), UpdateUrgency::UpToDate);
            }
            let x = version(a.major, a.minor, 99);
            let y = version(b.major, b.minor, 0);
            assert_eq!(classify_update(x, y), told);
        }
    }
    assert_eq!(classify_update(version(2, 0, 0), version(1, 99, 0)), UpdateUrgency::UpToDate);
}

#[test]
fn how_it_was_installed() {
    assert_eq!(detect_install_kind(None), InstallKind::Unknown);
    assert_eq!(
        detect_install_kind(Some("/home/u/.cargo/bin/chronosub")),
        InstallKind::CargoInstalled
    );
    assert_eq!(detect_install_kind(Some("/opt/chronosub")), InstallKind::StandaloneBinary);
    assert_eq!(
        detect_install_kind(Some("C:\\Users\\me\\.cargo\\bin\\chronosub.exe")),
        InstallKind::CargoInstalled
    );
    assert_eq!(detect_install_kind(Some("C:\\Tools\\chronosub.exe")), InstallKind::StandaloneBinary);
    assert_eq!(detect_install_kind(Some("")), InstallKind::StandaloneBinary);
}

#[test]
fn release_assets() {
    for os in ["windows", "macos", "linux"] {
        for arch in ["x86_64", "aarch64"] {
            assert_eq!(platform_hint(os, arch), format!("{os}-{arch}"));
        }
    }
    assert_eq!(platform_hint("freebsd", "x86_64"), "your-platform");
    assert_eq!(platform_hint("linux", "riscv64"), "your-platform");
}

#[test]
fn instructions() {
    assert_eq!(
        update_instructions(InstallKind::CargoInstalled, "chronosub", "linux-x86_64"),
        "Installed via cargo. Update with:\n\ncargo install --force chronosub"
    );
    assert_eq!(
        update_instructions(InstallKind::StandaloneBinary, "chronosub", "linux-x86_64"),
        "Standalone binary detected. Download the linux-x86_64 asset from GitHub releases and replace your current executable."
    );
    assert_eq!(
        update_instructions(InstallKind::Unknown, "chronosub", "linux-x86_64"),
        "Could not detect installation type. For cargo installs use `cargo install --force chronosub`; otherwise download your platform binary from GitHub releases."
    );
}

#[test]
fn requests() {
    assert_eq!(
        release_url("owner", "repo"),
        "https://api.github.com/repos/owner/repo/releases/latest"
    );
    assert_eq!(user_agent("chronosub", "1.7.3"), "chronosub/1.7.3");
}

#[test]
fn releases() {
    let current = version(1, 10, 0);
    let evaluate = |tag: &str| {
        evaluate_release(tag, "https://x/y".to_string(), current, "chronosub", Some("/opt/c"), "linux-x86_64")
    };
    let info = evaluate("v1.11.4").unwrap();
    assert_eq!(info.latest_version, version(1, 11, 4));
    assert_eq!(info.html_url, "https://x/y");
    assert_eq!(info.urgency, UpdateUrgency::Minor);
    assert_eq!(
        info.instructions,
        "Standalone binary detected. Download the linux-x86_64 asset from GitHub releases and replace your current executable."
    );
    assert_eq!(evaluate("2.0.0").unwrap().urgency, UpdateUrgency::Major);
    assert_eq!(evaluate("v1.10.9").unwrap().urgency, UpdateUrgency::UpToDate);
    assert_eq!(
        evaluate("nightly").unwrap_err(),
        "Unsupported release tag version: nightly"
    );
}

#[test]
fn repository_addresses() {
    let find = |url: &str| parse_repository_owner_and_name(url);
    let pair = |a: &str, b: &str| Some((a.to_string(), b.to_string()));
    assert_eq!(find("https://github.com/owner/repo"), pair("owner", "repo"));
    assert_eq!(find("https://github.com/owner/repo///"), pair("owner", "repo"));
    assert_eq!(find("a/b"), pair("a", "b"));
    assert_eq!(find("/b"), pair("", "b"));
    assert_eq!(find(""), None);
    assert_eq!(find("alone"), None);
    assert_eq!(find("alone/"), None);
    assert_eq!(find("//"), None);
}
