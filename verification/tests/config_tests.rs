use scrubfs::config::Config;

fn names(c: &Config) -> Vec<String> {
    c.folders.iter().map(|f| f.name.clone()).collect()
}

#[test]
fn default_config_is_empty() {
    let c = Config::default();
    assert!(c.mountpoint.is_none());
    assert!(c.folders.is_empty());
}

#[test]
fn add_refuses_a_taken_name() {
    let mut c = Config::default();
    assert!(c.add("/home/alice/Downloads".to_string(), "Downloads".to_string()));
    assert!(!c.add("/home/alice/other".to_string(), "Downloads".to_string()));
    assert_eq!(c.folders.len(), 1);
    assert_eq!(c.folders[0].source, "/home/alice/Downloads");
}

#[test]
fn add_appends_in_order_and_keeps_mountpoint() {
    let mut c = Config::default();
    c.mountpoint = Some("/mnt/drive".to_string());
    assert!(c.add("/home/alice/Downloads".to_string(), "Downloads".to_string()));
    assert!(c.add("/home/alice/work/client-docs".to_string(), "client".to_string()));
    assert_eq!(names(&c), vec!["Downloads".to_string(), "client".to_string()]);
    assert_eq!(c.folders[1].source, "/home/alice/work/client-docs");
    assert_eq!(c.mountpoint.as_deref(), Some("/mnt/drive"));
}

#[test]
fn remove_of_missing_name_reports_false() {
    let mut c = Config::default();
    assert!(c.add("/a".to_string(), "a".to_string()));
    assert!(!c.remove(&"b".to_string()));
    assert_eq!(names(&c), vec!["a".to_string()]);
}

#[test]
fn remove_drops_every_folder_of_that_name() {
    let mut c = Config::default();
    // A hand-edited settings file may hold a name twice.
    c.folders.push(scrubfs::config::MountEntry { source: "/a".to_string(), name: "x".to_string() });
    c.folders.push(scrubfs::config::MountEntry { source: "/b".to_string(), name: "y".to_string() });
    c.folders.push(scrubfs::config::MountEntry { source: "/c".to_string(), name: "x".to_string() });
    assert!(c.remove(&"x".to_string()));
    assert_eq!(names(&c), vec!["y".to_string()]);
    assert_eq!(c.folders[0].source, "/b");
}

#[test]
fn remove_undoes_add() {
    let mut c = Config::default();
    assert!(c.add("/a".to_string(), "a".to_string()));
    assert!(c.add("/b".to_string(), "b".to_string()));
    assert!(c.add("/c".to_string(), "c".to_string()));
    assert!(c.remove(&"c".to_string()));
    assert_eq!(names(&c), vec!["a".to_string(), "b".to_string()]);
    assert!(c.add("/c2".to_string(), "c".to_string()));
    assert_eq!(c.folders[2].source, "/c2");
}
