//! Texts, paths, times and errors.

use std::path::Path;

use flatbak::backup::{
    format_relative, format_timestamp, local_time, now_rfc3339, relative_text, timestamp_text,
};
use flatbak::error::{
    is_cancellation, ArchiveError, Cancelled, Failure, FlatpakUnavailable, Issue,
};
use flatbak::path::{components, file_name, join, same_path, Component};
use flatbak::text::{chars_of, decimal_text, split_lines, split_words, trimmed_text};

#[test]
fn paths_have_the_components_of_the_system() {
    let odd = [
        "", "/", "//", ".", "..", "./a", "a/./b", "a//b/", "/a/../b", "./.", "a/.", "...", "/.",
        ".a", "a/..", "../..", "./..",
    ];
    for path in odd {
        let expected: Vec<String> = Path::new(path)
            .components()
            .map(|part| part.as_os_str().to_string_lossy().into_owned())
            .collect();
        let found: Vec<String> = components(path.as_bytes())
            .iter()
            .map(|part| match part {
                Component::RootDir => "/".to_owned(),
                Component::CurDir => ".".to_owned(),
                Component::ParentDir => "..".to_owned(),
                Component::Normal(name) => String::from_utf8(name.clone()).unwrap(),
            })
            .collect();
        assert_eq!(found, expected, "{path}");
        assert_eq!(
            file_name(path.as_bytes()),
            Path::new(path).file_name().map(|name| name.as_encoded_bytes().to_vec()),
            "{path}"
        );
        for other in odd {
            assert_eq!(
                join(path.as_bytes(), other.as_bytes()),
                Path::new(path).join(other).as_os_str().as_encoded_bytes(),
                "{path} {other}"
            );
            assert_eq!(
                same_path(path.as_bytes(), other.as_bytes()),
                Path::new(path) == Path::new(other),
                "{path} {other}"
            );
        }
    }
}

#[test]
fn texts_are_cut_like_the_standard_library_does() {
    for text in [
        "", "a", " a ", "a\nb", "a\r\nb\r\n", "\n", "\r", "a\r", "x\n\ny", "\u{a0}b\u{2003}c\t",
        "\u{3000}", "one two  three",
    ] {
        assert_eq!(trimmed_text(text), text.trim(), "{text:?}");
        let lines: Vec<String> = split_lines(&chars_of(text))
            .into_iter()
            .map(|line| line.into_iter().collect())
            .collect();
        assert_eq!(lines, text.lines().collect::<Vec<_>>(), "{text:?}");
        let words: Vec<String> = split_words(&chars_of(text))
            .into_iter()
            .map(|word| word.into_iter().collect())
            .collect();
        assert_eq!(words, text.split_whitespace().collect::<Vec<_>>(), "{text:?}");
    }
    for code in 0..0x1_1000u32 {
        if let Some(c) = char::from_u32(code) {
            assert_eq!(flatbak::text::is_whitespace(c), c.is_whitespace(), "{code:x}");
        }
    }
    assert_eq!(decimal_text(0), "0");
    assert_eq!(decimal_text(u64::MAX), u64::MAX.to_string());
}

#[test]
fn ages_are_rounded_down() {
    let text = |seconds: i64| relative_text("raw", Some(seconds));
    assert_eq!(text(-5), "just now");
    assert_eq!(text(i64::MIN), "just now");
    assert_eq!(text(59), "just now");
    assert_eq!(text(60), "1 minute ago");
    assert_eq!(text(3_599), "59 minutes ago");
    assert_eq!(text(3_600), "1 hour ago");
    assert_eq!(text(86_399), "23 hours ago");
    assert_eq!(text(86_400), "1 day ago");
    assert_eq!(text(30 * 86_400 - 1), "29 days ago");
    assert_eq!(text(30 * 86_400), "1 month ago");
    assert_eq!(text(364 * 86_400), "12 months ago");
    assert_eq!(text(365 * 86_400), "1 year ago");
    assert_eq!(text(800 * 86_400), "2 years ago");
    assert_eq!(relative_text("raw", None), "raw");
}

#[test]
fn timestamps_are_shown_or_passed_on() {
    assert_eq!(format_relative("whenever"), "whenever");
    assert_eq!(format_timestamp("whenever"), "whenever");
    assert_eq!(timestamp_text("raw", None), "raw");
    assert_eq!(timestamp_text("raw", Some("shown".to_owned())), "shown");
    let now = now_rfc3339();
    assert!(chrono::DateTime::parse_from_rfc3339(&now).is_ok());
    assert!(now.ends_with('Z'));
    assert_eq!(format_relative(&now), "just now");
    let long_ago = format_relative("2001-01-01T00:00:00Z");
    assert!(long_ago.ends_with(" years ago"), "{long_ago}");
    let shown = format_timestamp("2026-09-08T12:00:00Z");
    assert!(shown.contains(" September 2026 at "), "{shown}");
    let day: u32 = shown.split(' ').next().unwrap().parse().unwrap();
    assert!((7..=9).contains(&day) && !shown.starts_with('0'), "{shown}");
    let (hour, minute) = shown.rsplit_once(' ').unwrap().1.split_once(':').unwrap();
    assert!(hour.len() == 2 && minute.len() == 2, "{shown}");
    assert_eq!(now.len(), "2026-09-08T12:00:00Z".len());
}

#[test]
fn moments_are_shown_by_the_calendar() {
    let noon = 1_788_868_800;
    assert_eq!(local_time(noon, 0), "8 September 2026 at 12:00");
    assert_eq!(local_time(noon, 7_200), "8 September 2026 at 14:00");
    assert_eq!(local_time(noon, -43_260), "7 September 2026 at 23:59");
    assert_eq!(local_time(noon + 59, 0), "8 September 2026 at 12:00");
    assert_eq!(local_time(noon + 60, 0), "8 September 2026 at 12:01");
    assert_eq!(local_time(1_709_251_199, 0), "29 February 2024 at 23:59");
    assert_eq!(local_time(1_709_251_199, 1), "1 March 2024 at 00:00");
    assert_eq!(local_time(946_683_000, 1_800), "1 January 2000 at 00:00");
    assert_eq!(local_time(0, 0), "1 January 1970 at 00:00");
    assert_eq!(local_time(-1, 0), "31 December 1969 at 23:59");
    // The ends of what a timestamp can name.
    assert_eq!(local_time(253_402_300_800, 0), "1 January +10000 at 00:00");
    assert_eq!(local_time(-62_167_219_201, 0), "31 December -0001 at 23:59");
}

#[test]
fn timestamps_are_shown_where_the_machine_is() {
    for (raw, second) in [
        ("2026-09-08T12:00:00Z", 1_788_868_800),
        ("2026-09-08T14:00:30.25+02:00", 1_788_868_830),
        ("1999-12-31 23:30:00Z", 946_683_000),
    ] {
        let parsed = chrono::DateTime::parse_from_rfc3339(raw).unwrap();
        let offset = parsed.with_timezone(&chrono::Local).offset().local_minus_utc();
        assert_eq!(format_timestamp(raw), local_time(second, i64::from(offset)));
    }
}

#[test]
fn errors_say_what_they_mean() {
    assert_eq!(Cancelled.message(), "operation cancelled");
    assert_eq!(
        FlatpakUnavailable::Failed("x".to_owned()).message(),
        "The flatpak command failed to run: x"
    );
    assert_eq!(
        ArchiveError::NotAFlatbakArchive(b"/b/x".to_vec()).message(),
        "/b/x is not a FlatBak backup."
    );
    assert_eq!(
        ArchiveError::UnsupportedVersion { found: 9, supported: 1 }.message(),
        "This backup was created by a newer version of FlatBak (format 9, this version supports up to 1). Please update FlatBak."
    );
    assert_eq!(
        ArchiveError::Corrupt("r".to_owned()).message(),
        "The backup file is damaged: r"
    );
    assert_eq!(
        ArchiveError::InvalidManifest("r".to_owned()).message(),
        "The backup manifest is invalid: r"
    );
    assert_eq!(
        ArchiveError::Truncated.message(),
        "The backup file is truncated. It may have been copied or downloaded incompletely."
    );
    assert_eq!(
        ArchiveError::ChecksumMismatch.message(),
        "The backup contents do not match its checksum. The file is damaged and cannot be restored safely."
    );
}

#[test]
fn issues_say_what_they_mean() {
    let s = |text: &str| text.to_owned();
    for (issue, text) in [
        (
            Issue::NoDataDirectory { app: s("A") },
            "A: no application data found, nothing to back up",
        ),
        (
            Issue::MissingRemote { app: s("A"), remote: s("r") },
            "A: remote \u{201c}r\u{201d} is not configured",
        ),
        (Issue::DataSkipped { app: s("A") }, "A: kept existing data"),
        (
            Issue::InstallFailed { app: s("A"), message: s("m") },
            "A: install failed \u{2014} m",
        ),
        (
            Issue::DataRestoreFailed { app: s("A"), message: s("m") },
            "A: data could not be restored \u{2014} m",
        ),
        (
            Issue::ReadFailed { path: b"/x\xff".to_vec(), message: s("m") },
            "/x\u{fffd}: could not be read \u{2014} m",
        ),
        (
            Issue::UnsafeEntry { path: s("p"), reason: s("r") },
            "skipped unsafe archive entry p \u{2014} r",
        ),
        (Issue::Other { message: s("m") }, "m"),
    ] {
        assert_eq!(issue.clone().message(), text);
    }
}

#[test]
fn failures_know_what_lies_behind_them() {
    let failure = Failure::Cancelled(Cancelled).during("inner").during("outer");
    assert!(is_cancellation(&failure));
    assert_eq!(failure.message(), "outer");
    assert_eq!(failure.chain(), "outer: inner: operation cancelled");
    let failure = Failure::Archive(ArchiveError::Truncated);
    assert!(!is_cancellation(&failure));
    assert_eq!(failure.chain(), failure.message());
    assert!(!is_cancellation(&Failure::Message("operation cancelled".to_owned())));
    assert_eq!(
        Failure::Unavailable(FlatpakUnavailable::NotFound).message(),
        "The flatpak command was not found. Install Flatpak to use FlatBak."
    );
}
