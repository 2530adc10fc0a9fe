//! Sizes, application IDs and path safety.

use flatbak::error::Cancelled;
use flatbak::util::{
    format_size, is_valid_app_id, parent_depth, parse_size, refuse_if, safe_join,
    symlink_target_is_contained, with_backup_extension, Cancel, PathError,
};

#[test]
fn formats_sizes_like_flatpak() {
    assert_eq!(format_size(0), "0 B");
    assert_eq!(format_size(999), "999 B");
    assert_eq!(format_size(1_000), "1.0 kB");
    assert_eq!(format_size(1_400_000_000), "1.4 GB");
    assert_eq!(format_size(420_700_000), "421 MB");
}

#[test]
fn parses_sizes_round_trip() {
    assert_eq!(parse_size("1.4 GB"), Some(1_400_000_000));
    assert_eq!(parse_size("13 MB"), Some(13_000_000));
    assert_eq!(parse_size("112 kB"), Some(112_000));
    assert_eq!(parse_size("?"), None);
    assert_eq!(parse_size(""), None);
    assert_eq!(parse_size("nonsense"), None);
}

#[test]
fn rejects_bad_app_ids() {
    assert!(is_valid_app_id("org.videolan.VLC"));
    assert!(is_valid_app_id("io.github.kolunmi.Bazaar"));
    assert!(!is_valid_app_id(""));
    assert!(!is_valid_app_id("."));
    assert!(!is_valid_app_id(".."));
    assert!(!is_valid_app_id("../etc"));
    assert!(!is_valid_app_id("a/b"));
    assert!(!is_valid_app_id(".hidden"));
    assert!(!is_valid_app_id("with space"));
}

#[test]
fn safe_join_blocks_traversal() {
    let base = b"/tmp/dest";
    assert_eq!(
        safe_join(base, b"config/prefs.js").unwrap(),
        b"/tmp/dest/config/prefs.js"
    );
    assert!(safe_join(base, b"../escape").is_err());
    assert!(safe_join(base, b"/etc/passwd").is_err());
    assert!(safe_join(base, b"a/../../b").is_err());
    assert!(safe_join(base, b"").is_err());
}

#[test]
fn symlink_containment_respects_the_link_depth() {
    // A link sitting directly in the application root cannot use `..`.
    assert!(symlink_target_is_contained(0, b"sibling"));
    assert!(symlink_target_is_contained(0, b"data/file"));
    assert!(!symlink_target_is_contained(0, b".."));
    assert!(!symlink_target_is_contained(0, b"../elsewhere"));

    // One level down, a single `..` is legitimate: this is the shape real
    // application data uses.
    assert!(symlink_target_is_contained(1, b"../library.db"));
    assert!(symlink_target_is_contained(2, b"../../library.db"));
    assert!(!symlink_target_is_contained(1, b"../../escape"));

    // Interior `..` is fine as long as the walk never dips below the root.
    assert!(symlink_target_is_contained(0, b"nested/deep/../file"));
    assert!(!symlink_target_is_contained(0, b"nested/../../file"));

    // Absolute targets and empty targets are always refused.
    assert!(!symlink_target_is_contained(5, b"/etc/passwd"));
    assert!(!symlink_target_is_contained(5, b""));
}

#[test]
fn parent_depth_counts_directories() {
    assert_eq!(parent_depth(b"name"), 0);
    assert_eq!(parent_depth(b"config/prefs.js"), 1);
    assert_eq!(parent_depth(b"data/nested/link"), 2);
}

#[test]
fn parent_depth_of_odd_paths() {
    for odd in ["", "/", "/a", ".", "./a", "a/", "a//b/./c", "..", "../a"] {
        let path = std::path::Path::new(odd);
        let expected = path.parent().map(|p| p.components().count()).unwrap_or(0);
        assert_eq!(parent_depth(odd.as_bytes()), expected, "{odd}");
    }
}

/// What doubles make of a size.
fn double_format(bytes: u64) -> String {
    let units = ["B", "kB", "MB", "GB", "TB", "PB"];
    if bytes < 1000 {
        return format!("{bytes} B");
    }
    let mut value = bytes as f64;
    let mut unit = 0;
    while value >= 1000.0 && unit + 1 < units.len() {
        value /= 1000.0;
        unit += 1;
    }
    if value < 10.0 {
        format!("{value:.1} {}", units[unit])
    } else {
        format!("{value:.0} {}", units[unit])
    }
}

/// A sequence of numbers without an obvious pattern.
fn scramble(state: &mut u64) -> u64 {
    *state ^= *state << 13;
    *state ^= *state >> 7;
    *state ^= *state << 17;
    *state
}

#[test]
fn format_size_agrees_with_doubles() {
    let mut state = 0x9e37_79b9_7f4a_7c15u64;
    for i in 0..20_000u64 {
        let n = scramble(&mut state) >> (i % 64);
        assert_eq!(format_size(n), double_format(n), "{n}");
    }
    for n in [
        999, 1_000, 1_049, 1_050, 1_051, 1_150, 1_250, 9_949, 9_950, 9_999, 10_000, 10_500,
        11_500, 999_499, 999_500, 999_999, 1_000_000, 9_950_000, 999_500_000,
        u64::MAX, u64::MAX - 1024, 1 << 53, (1 << 53) + 1, 1_000_000_000_000_000_000,
    ] {
        assert_eq!(format_size(n), double_format(n), "{n}");
    }
}

/// What doubles make of a size column.
fn double_parse(text: &str) -> Option<u64> {
    let text = text.trim();
    if text.is_empty() || text == "?" || text == "-" {
        return None;
    }
    let split = text
        .find(|c: char| !(c.is_ascii_digit() || c == '.' || c == ','))
        .unwrap_or(text.len());
    let (number, unit) = text.split_at(split);
    let number: f64 = number.trim().replace(',', ".").parse().ok()?;
    let multiplier: f64 = match unit.trim().to_ascii_lowercase().as_str() {
        "" | "b" | "bytes" => 1.0,
        "kb" | "k" => 1e3,
        "mb" | "m" => 1e6,
        "gb" | "g" => 1e9,
        "tb" | "t" => 1e12,
        "pb" => 1e15,
        "kib" => 1024.0,
        "mib" => 1024f64.powi(2),
        "gib" => 1024f64.powi(3),
        "tib" => 1024f64.powi(4),
        _ => return None,
    };
    Some((number * multiplier).round() as u64)
}

#[test]
fn parse_size_agrees_with_doubles() {
    let units = [
        "", "B", " bytes", "kB", " K", " MB", "m", " GB", "g", "TB", " t", "PB", " KiB", "MiB",
        "GiB", " TiB", " EB", " kb x",
    ];
    let mut state = 0x1234_5678_9abc_def1u64;
    for i in 0..6_000u64 {
        let whole = scramble(&mut state) >> (scramble(&mut state) % 64);
        let part = scramble(&mut state) >> (scramble(&mut state) % 64);
        let unit = units[(i % units.len() as u64) as usize];
        for text in [
            format!("{whole}{unit}"),
            format!("{whole}.{part}{unit}"),
            format!("{},{part:020}{unit}", whole % 1000),
            format!("0.{part:040}{unit}"),
            format!(".{part}{unit}"),
            format!("{whole}.{unit}"),
            format!("{whole}{part}{whole}{unit}"),
        ] {
            assert_eq!(parse_size(&text), double_parse(&text), "{text}");
        }
    }
    for text in [
        ".", ",", "1.2.3 MB", "1,2 kB", " 7 ", "-", "-1", "+1", "1e3", "\u{a0}5 kB\u{a0}", "5\tkB",
        "0.5", "1.5", "2.5", "0.4999999999999999999", "18446744073709551615",
        "18446744073709551616", "99999999999999999999999999", "9007199254740993",
        "0.1 kB", "1.005 kB", "179769313486231580793728971405301 PB",
    ] {
        assert_eq!(parse_size(text), double_parse(text), "{text}");
    }
}

#[test]
fn parse_size_of_very_long_numbers() {
    let zeros = "0".repeat(400);
    assert_eq!(parse_size(&format!("1{zeros}")), Some(u64::MAX));
    assert_eq!(parse_size(&format!("0.{zeros}1 PB")), Some(0));
    assert_eq!(parse_size(&format!("1.{zeros}1 kB")), Some(1_000));
    assert_eq!(double_parse(&format!("1{zeros}")), Some(u64::MAX));
    assert_eq!(double_parse(&format!("0.{zeros}1 PB")), Some(0));
}

#[test]
fn app_ids_at_the_limits() {
    assert!(is_valid_app_id(&"a".repeat(255)));
    assert!(!is_valid_app_id(&"a".repeat(256)));
    assert!(!is_valid_app_id("-a"));
    assert!(is_valid_app_id("a-b_c.D9"));
    assert!(!is_valid_app_id("caf\u{e9}"));
}

#[test]
fn safe_join_names_its_reasons() {
    assert_eq!(safe_join(b"/d", b"a/../b"), Err(PathError::Escapes));
    assert_eq!(safe_join(b"/d", b"/a"), Err(PathError::Absolute));
    assert_eq!(safe_join(b"/d", b"a/\xff"), Err(PathError::Suspicious));
    assert_eq!(safe_join(b"/d", b"./."), Err(PathError::Empty));
    // The first fault decides.
    assert_eq!(safe_join(b"/d", b"/.."), Err(PathError::Absolute));
    assert_eq!(
        PathError::Suspicious.message(),
        "archive entry has a suspicious path component"
    );
    assert_eq!(
        PathError::Escapes.message(),
        "archive entry path escapes the destination directory"
    );
    assert_eq!(PathError::Absolute.message(), "archive entry path is absolute");
    assert_eq!(PathError::Empty.message(), "archive entry path is empty");
}

#[test]
fn safe_join_stays_below_its_base() {
    assert_eq!(safe_join(b"/d/", b"./a//b/.").unwrap(), b"/d/a/b");
    assert_eq!(safe_join(b"", b"a").unwrap(), b"a");
}

#[test]
fn backup_extension_is_added_once() {
    let extended = |path: &str| {
        String::from_utf8(with_backup_extension(path.as_bytes().to_vec())).unwrap()
    };
    assert_eq!(extended("/x/mine"), "/x/mine.flatbak");
    assert_eq!(extended("/x/mine.flatbak"), "/x/mine.flatbak");
    assert_eq!(extended("/x/mine.FlatBak"), "/x/mine.FlatBak");
    assert_eq!(extended("/x/mine.tar"), "/x/mine.tar.flatbak");
    assert_eq!(extended(".flatbak"), ".flatbak.flatbak");
    assert_eq!(extended(""), ".flatbak");
    assert_eq!(extended("/"), "/.flatbak");
    assert_eq!(extended("a/.."), "a/../.flatbak");
    for path in ["mine", "/x/mine.tar", "a//b", "./c"] {
        let once = extended(path);
        assert_eq!(extended(&once), once);
        let expected = std::path::Path::new(path).with_file_name(format!(
            "{}.flatbak",
            std::path::Path::new(path).file_name().unwrap().to_string_lossy()
        ));
        assert_eq!(std::path::Path::new(&once), expected);
    }
}

#[test]
fn cancelling_is_seen_by_every_clone() {
    let cancel = Cancel::new();
    let other = cancel.clone();
    assert!(!other.is_cancelled());
    assert!(other.check().is_ok());
    cancel.cancel();
    assert!(other.is_cancelled());
    assert_eq!(other.check(), Err(Cancelled));
    assert_eq!(refuse_if(true), Err(Cancelled));
    assert_eq!(refuse_if(false), Ok(()));
    assert!(!Cancel::default().is_cancelled());
}

#[test]
fn shown_sizes_are_read_again() {
    for bytes in [0, 1, 9, 10, 999] {
        assert_eq!(parse_size(&format_size(bytes)), Some(bytes));
    }
    for bytes in [1_000, 1_049, 1_050, 1_051, 1_950_000, 10_499, 10_500, 10_501, 9_949, 9_950, 9_999, 999_499, 999_500, 12_345_678, u64::MAX] {
        let shown = format_size(bytes);
        let read = parse_size(&shown).unwrap();
        // Give or take a twentieth.
        assert!(u128::from(read.abs_diff(bytes)) * 20 <= u128::from(bytes), "{shown}");
    }
}
