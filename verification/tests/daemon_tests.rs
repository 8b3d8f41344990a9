use scrubfs::daemon::{is_listed_mountpoint, parse_pid, render_pid};

#[test]
fn pid_file_contents_are_read_back() {
    assert_eq!(parse_pid("4321"), Some(4321));
    assert_eq!(parse_pid("4321\n"), Some(4321));
    assert_eq!(parse_pid("  17 \t\n"), Some(17));
    assert_eq!(parse_pid("+7"), Some(7));
    assert_eq!(parse_pid("-5"), Some(-5));
}

#[test]
fn pid_limits_are_those_of_i32() {
    assert_eq!(parse_pid("2147483647"), Some(i32::MAX));
    assert_eq!(parse_pid("-2147483648"), Some(i32::MIN));
    assert_eq!(parse_pid("2147483648"), None);
    assert_eq!(parse_pid("-2147483649"), None);
    assert_eq!(parse_pid("99999999999999999999"), None);
}

#[test]
fn malformed_pid_files_give_nothing() {
    assert_eq!(parse_pid(""), None);
    assert_eq!(parse_pid("   "), None);
    assert_eq!(parse_pid("-"), None);
    assert_eq!(parse_pid("+"), None);
    assert_eq!(parse_pid("12 34"), None);
    assert_eq!(parse_pid("abc"), None);
    assert_eq!(parse_pid("12a"), None);
    assert_eq!(parse_pid("--1"), None);
}

const MOUNTS: &str = "sysfs /sys sysfs rw,nosuid,nodev,noexec,relatime 0 0\n\
proc /proc proc rw,nosuid,nodev,noexec,relatime 0 0\n\
/dev/nvme0n1p2 / ext4 rw,relatime 0 0\n\
scrubfs /home/alice/scrubfs fuse rw,nosuid,nodev,relatime,user_id=1000,group_id=1000 0 0\n";

#[test]
fn mounted_paths_are_found_in_the_table() {
    assert!(is_listed_mountpoint(MOUNTS, "/home/alice/scrubfs"));
    assert!(is_listed_mountpoint(MOUNTS, "/"));
    assert!(is_listed_mountpoint(MOUNTS, "/proc"));
}

#[test]
fn only_the_second_field_counts() {
    assert!(!is_listed_mountpoint(MOUNTS, "scrubfs"));
    assert!(!is_listed_mountpoint(MOUNTS, "fuse"));
    assert!(!is_listed_mountpoint(MOUNTS, "/home/alice"));
    assert!(!is_listed_mountpoint(MOUNTS, "/home/alice/scrubfs/x"));
    assert!(!is_listed_mountpoint(MOUNTS, ""));
}

#[test]
fn fields_may_be_separated_by_any_white_space() {
    assert!(is_listed_mountpoint("  dev\t\t/mnt/a   ext4", "/mnt/a"));
    assert!(is_listed_mountpoint("x y\r\nz /last", "/last"));
    assert!(!is_listed_mountpoint("one\n/two three", "/two"));
    assert!(!is_listed_mountpoint("", "/"));
}

#[test]
fn pids_are_written_in_decimal() {
    assert_eq!(render_pid(0), "0");
    assert_eq!(render_pid(7), "7");
    assert_eq!(render_pid(4321), "4321");
    assert_eq!(render_pid(u32::MAX), "4294967295");
}

#[test]
fn a_written_pid_reads_back() {
    for pid in [0u32, 1, 9, 10, 99, 100, 4321, 2147483647] {
        assert_eq!(parse_pid(&render_pid(pid)), Some(pid as i32));
    }
    assert_eq!(parse_pid(&render_pid(2147483648)), None);
}
