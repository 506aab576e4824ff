use ccdu::format::{format_time, format_time_secs, human_count, human_size};
use ccdu::inode::inode_key;
use ccdu::model::flags;
use ccdu::path::{component_count, file_name, is_inside, join, parent, path_starts_with, paths_match};
use ccdu::report::annotations;
use ccdu::text::{decimal, decimal_padded, padded, padded_right, repeated};

#[test]
fn sizes_round_to_one_decimal() {
    assert_eq!(human_size(0), "0 B");
    assert_eq!(human_size(1023), "1023 B");
    assert_eq!(human_size(1024), "1.0 KiB");
    assert_eq!(human_size(1536), "1.5 KiB");
    assert_eq!(human_size(15_431_680_000), "14.4 GiB");
    assert_eq!(human_size(u64::MAX), "16.0 EiB");
}

#[test]
fn every_unit_has_a_name() {
    assert_eq!(human_size(1 << 20), "1.0 MiB");
    assert_eq!(human_size(1 << 40), "1.0 TiB");
    assert_eq!(human_size(1 << 50), "1.0 PiB");
    assert_eq!(human_size(1 << 60), "1.0 EiB");
    // Just short of the next unit is still shown in this one.
    assert_eq!(human_size((1 << 20) - 1), "1024.0 KiB");
    // Half way between two decimals goes to the even one.
    assert_eq!(human_size(1024 + 256), "1.2 KiB");
    assert_eq!(human_size(1024 + 768), "1.8 KiB");
}

#[test]
fn counts_group_by_threes() {
    assert_eq!(human_count(0), "0");
    assert_eq!(human_count(999), "999");
    assert_eq!(human_count(1000), "1 000");
    assert_eq!(human_count(118_737), "118 737");
}

#[test]
fn timestamps_match_known_dates() {
    assert_eq!(format_time(0), "1970-01-01 00:00");
    assert_eq!(format_time(1_000_000_000), "2001-09-09 01:46");
    // A leap day, to catch the century rules.
    assert_eq!(format_time(951_782_400), "2000-02-29 00:00");
    // Before the epoch, where naive division goes wrong.
    assert_eq!(format_time(-1), "1969-12-31 23:59");
}

#[test]
fn second_resolution_distinguishes_times_within_a_minute() {
    assert_eq!(format_time_secs(0), "1970-01-01 00:00:00");
    assert_eq!(format_time_secs(1_000_000_000), "2001-09-09 01:46:40");
    // The case this exists for: same minute, different instant.
    assert_ne!(format_time_secs(1_000_000_000), format_time_secs(1_000_000_010));
    assert_eq!(format_time(1_000_000_000), format_time(1_000_000_010));
}

#[test]
fn later_times_sort_after_earlier_ones() {
    let times = [
        0, 1, 59, 60, 3599, 86_399, 86_400, 951_782_399, 951_782_400, 1_000_000_000, 4_102_444_799,
        4_102_444_800, 253_402_300_799,
    ];
    for pair in times.windows(2) {
        assert!(format_time_secs(pair[0]) < format_time_secs(pair[1]), "{pair:?}");
    }
    for secs in [-61, -1, 0, 61, 1_000_000_007] {
        let tail = format!("{}:{:02}", format_time(secs), secs.rem_euclid(60));
        assert_eq!(format_time_secs(secs), tail);
    }
}

#[test]
fn the_ends_of_time_do_not_overflow() {
    assert!(format_time_secs(i64::MAX).ends_with(":07"));
    assert!(format_time_secs(i64::MIN).starts_with('-'));
}

#[test]
fn numbers_are_padded_on_either_side() {
    assert_eq!(decimal(u64::MAX), "18446744073709551615");
    assert_eq!(decimal_padded(7, 3), "007");
    assert_eq!(decimal_padded(1234, 3), "1234");
    assert_eq!(padded("ab", ' ', 4), "  ab");
    assert_eq!(padded_right("ab", 4), "ab  ");
    assert_eq!(padded_right("abcde", 4), "abcde");
    assert_eq!(repeated('x', 3), "xxx");
}

#[test]
fn different_inodes_have_different_keys() {
    assert_ne!(inode_key(1, 2), inode_key(2, 1));
    assert_eq!(inode_key(1, 2), (1u128 << 64) + 2);
}

#[test]
fn paths_are_compared_by_component() {
    assert!(path_starts_with(b"/data/cache/x", b"/data/cache"));
    assert!(!path_starts_with(b"/data/cache2", b"/data/cache"));
    assert!(is_inside(b"/data/cache/x", b"/data/cache"));
    assert!(!is_inside(b"/data/cache", b"/data/cache"));
    assert!(paths_match(b"/data//cache/", b"/data/cache"));
    assert_eq!(component_count(b"/data/cache"), 3);
    assert_eq!(join(b"/data", b"x"), b"/data/x");
    assert_eq!(join(b"/", b"x"), b"/x");
    assert_eq!(parent(b"/data/x"), Some(b"/data".to_vec()));
    assert_eq!(parent(b"/"), None);
    assert_eq!(file_name(b"/data/x/"), Some(b"x".to_vec()));
    assert_eq!(file_name(b"/data/.."), None);
}

#[test]
fn everything_odd_about_an_entry_is_annotated() {
    assert_eq!(annotations(flags::DIR), "");
    assert_eq!(annotations(flags::ERR), "  [unreadable]");
    assert_eq!(
        annotations(flags::EXCLUDED | flags::HARDLINK_DUP | flags::LOOP | flags::OTHER_FS),
        "  [excluded, other filesystem, hardlink, counted elsewhere, already visited]"
    );
}
