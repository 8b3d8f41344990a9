use scrubfs::config::Config;
use scrubfs::paths::{
    config_dir, config_file, config_tmp_dir, default_mountpoint, drive_mountpoint, expand_tilde,
    folder_name, join_path, media_dirs, pid_file,
};

fn home() -> Option<String> {
    Some("/home/alice".to_string())
}

#[test]
fn join_puts_one_separator_between() {
    assert_eq!(join_path("/a", "b"), "/a/b");
    assert_eq!(join_path("/a/", "b"), "/a/b");
    assert_eq!(join_path("", "b"), "b");
    assert_eq!(join_path("/a", ""), "/a/");
}

#[test]
fn join_with_absolute_path_replaces() {
    assert_eq!(join_path("/home/alice", "/etc/passwd"), "/etc/passwd");
}

#[test]
fn settings_files_live_in_the_settings_directory() {
    assert_eq!(config_dir(&home()), "/home/alice/.config/scrubfs");
    assert_eq!(config_file(&home()), "/home/alice/.config/scrubfs/scrubfs.conf");
    assert_eq!(config_tmp_dir(&home()), "/home/alice/.config/scrubfs/tmp");
    assert_eq!(pid_file(&home()), "/home/alice/.config/scrubfs/scrubfs.pid");
}

#[test]
fn missing_home_falls_back_to_tmp() {
    assert_eq!(config_dir(&None), "/tmp/.config/scrubfs");
    assert_eq!(default_mountpoint(&None), "/tmp/scrubfs");
}

#[test]
fn default_mountpoint_is_in_home() {
    assert_eq!(default_mountpoint(&home()), "/home/alice/scrubfs");
}

#[test]
fn drive_mountpoint_prefers_the_configured_one() {
    let mut c = Config::default();
    assert_eq!(drive_mountpoint(&c, &home()), "/home/alice/scrubfs");
    c.mountpoint = Some("/run/media/alice/scrubfs".to_string());
    assert_eq!(drive_mountpoint(&c, &home()), "/run/media/alice/scrubfs");
}

#[test]
fn tilde_expands_to_home() {
    assert_eq!(expand_tilde("~/Documents", &home()), "/home/alice/Documents");
    assert_eq!(expand_tilde("~/", &home()), "/home/alice/");
}

#[test]
fn tilde_is_kept_without_home_or_slash() {
    assert_eq!(expand_tilde("~/Documents", &None), "~/Documents");
    assert_eq!(expand_tilde("~Documents", &home()), "~Documents");
    assert_eq!(expand_tilde("/srv/~/x", &home()), "/srv/~/x");
    assert_eq!(expand_tilde("~", &home()), "~");
}

#[test]
fn tilde_followed_by_absolute_path_gives_that_path() {
    assert_eq!(expand_tilde("~//etc", &home()), "/etc");
}

#[test]
fn folder_name_defaults_to_directory_name() {
    assert_eq!(folder_name(Some("client".to_string()), "/home/alice/work/client-docs"), "client");
    assert_eq!(folder_name(None, "/home/alice/Downloads"), "Downloads");
    assert_eq!(folder_name(None, "/"), "folder");
}

#[test]
fn setup_directories_are_under_run_media() {
    let (media, mountpoint) = media_dirs("alice");
    assert_eq!(media, "/run/media/alice");
    assert_eq!(mountpoint, "/run/media/alice/scrubfs");
}
