use scrubfs::fs::{
    dir_page, make_attr, open_failure, read_range, DirEntry, Errno, FileKind, FileMeta, MetaFS,
    OpenAction, OpenEvent, OpenFile, Timestamp, ROOT_INO,
};

fn started() -> Timestamp {
    Timestamp { before_epoch: false, secs: 1_700_000_000, nanos: 5 }
}

fn drive() -> MetaFS<u32> {
    MetaFS::new(
        vec![
            ("Downloads".to_string(), "/home/alice/Downloads".to_string()),
            ("client".to_string(), "/home/alice/work/client-docs".to_string()),
        ],
        "/home/alice/.config/scrubfs/tmp".to_string(),
        "/home/alice/scrubfs".to_string(),
        started(),
    )
}

fn view(entries: &[DirEntry]) -> Vec<(u64, FileKind, String)> {
    entries.iter().map(|e| (e.ino, e.kind, e.name.clone())).collect()
}

#[test]
fn folder_roots_get_the_first_inodes() {
    let fs = drive();
    assert_eq!(fs.path_of(2).as_deref(), Some("/home/alice/Downloads"));
    assert_eq!(fs.path_of(3).as_deref(), Some("/home/alice/work/client-docs"));
    assert_eq!(fs.path_of(ROOT_INO), None);
    assert_eq!(fs.path_of(4), None);
    assert!(fs.is_entry_root(2) && fs.is_entry_root(3));
    assert!(!fs.is_entry_root(ROOT_INO) && !fs.is_entry_root(4));
    assert_eq!(fs.next_ino(), 4);
}

#[test]
fn folders_are_found_by_name() {
    let fs = drive();
    assert_eq!(fs.lookup_root(&"client".to_string()), Some((3, "/home/alice/work/client-docs".to_string())));
    assert_eq!(fs.lookup_root(&"Downloads".to_string()), Some((2, "/home/alice/Downloads".to_string())));
    assert_eq!(fs.lookup_root(&"downloads".to_string()), None);
}

#[test]
fn the_first_of_two_folders_with_one_name_is_found() {
    let fs: MetaFS<u32> = MetaFS::new(
        vec![("a".to_string(), "/x".to_string()), ("a".to_string(), "/y".to_string())],
        "/tmp".to_string(),
        "/m".to_string(),
        started(),
    );
    assert_eq!(fs.lookup_root(&"a".to_string()), Some((2, "/x".to_string())));
}

#[test]
fn a_path_keeps_its_inode() {
    let mut fs = drive();
    let a = fs.find_or_alloc_ino("/home/alice/Downloads/photo.jpg");
    let b = fs.find_or_alloc_ino("/home/alice/Downloads/notes.txt");
    assert_eq!(a, 4);
    assert_eq!(b, 5);
    assert_eq!(fs.find_or_alloc_ino("/home/alice/Downloads/photo.jpg"), 4);
    assert_eq!(fs.path_of(a).as_deref(), Some("/home/alice/Downloads/photo.jpg"));
    assert_eq!(fs.path_of(b).as_deref(), Some("/home/alice/Downloads/notes.txt"));
    assert_eq!(fs.next_ino(), 6);
    assert_eq!(fs.path_of(2).as_deref(), Some("/home/alice/Downloads"));
}

#[test]
fn a_folder_source_reached_again_keeps_its_root_inode() {
    let mut fs = drive();
    assert_eq!(fs.find_or_alloc_ino("/home/alice/work/client-docs"), 3);
    assert_eq!(fs.next_ino(), 4);
}

#[test]
fn a_source_shared_by_two_folders_maps_to_the_later_one() {
    let mut fs: MetaFS<u32> = MetaFS::new(
        vec![("a".to_string(), "/x".to_string()), ("b".to_string(), "/x".to_string())],
        "/tmp".to_string(),
        "/m".to_string(),
        started(),
    );
    assert_eq!(fs.find_or_alloc_ino("/x"), 3);
}

#[test]
fn many_paths_get_distinct_inodes() {
    let mut fs = drive();
    let mut inos = Vec::new();
    for i in 0..200 {
        inos.push(fs.find_or_alloc_ino(&format!("/home/alice/Downloads/f{}", i)));
    }
    for i in 0..200 {
        assert_eq!(inos[i], 4 + i as u64);
        assert_eq!(fs.find_or_alloc_ino(&format!("/home/alice/Downloads/f{}", i)), inos[i]);
        assert_eq!(fs.path_of(inos[i]), Some(format!("/home/alice/Downloads/f{}", i)));
    }
}

#[test]
fn child_paths_join_the_parent_path() {
    let fs = drive();
    assert_eq!(fs.child_path(2, "photo.jpg").as_deref(), Some("/home/alice/Downloads/photo.jpg"));
    assert_eq!(fs.child_path(9, "photo.jpg"), None);
    assert_eq!(fs.child_path(ROOT_INO, "photo.jpg"), None);
}

#[test]
fn the_root_lists_the_folders() {
    let fs = drive();
    assert_eq!(
        view(&fs.root_listing()),
        vec![
            (1, FileKind::Directory, ".".to_string()),
            (1, FileKind::Directory, "..".to_string()),
            (2, FileKind::Directory, "Downloads".to_string()),
            (3, FileKind::Directory, "client".to_string()),
        ]
    );
}

#[test]
fn a_folder_lists_its_children_and_hides_the_mountpoint() {
    let mut fs: MetaFS<u32> = MetaFS::new(
        vec![("home".to_string(), "/home/alice".to_string())],
        "/tmp".to_string(),
        "/home/alice/scrubfs".to_string(),
        started(),
    );
    let children = vec![
        ("notes.txt".to_string(), FileKind::RegularFile),
        ("scrubfs".to_string(), FileKind::Directory),
        ("link".to_string(), FileKind::Symlink),
    ];
    let listing = fs.dir_listing(2, &children);
    assert_eq!(
        view(&listing),
        vec![
            (2, FileKind::Directory, ".".to_string()),
            (1, FileKind::Directory, "..".to_string()),
            (3, FileKind::RegularFile, "notes.txt".to_string()),
            (4, FileKind::Symlink, "link".to_string()),
        ]
    );
    assert_eq!(fs.path_of(3).as_deref(), Some("/home/alice/notes.txt"));
    assert_eq!(fs.path_of(4).as_deref(), Some("/home/alice/link"));
    // Listing again gives the same inodes.
    let again = fs.dir_listing(2, &children);
    assert_eq!(view(&again), view(&listing));
    assert_eq!(fs.next_ino(), 5);
}

#[test]
fn a_subdirectory_lists_its_parent_inode() {
    let mut fs = drive();
    let sub = fs.find_or_alloc_ino("/home/alice/Downloads/album");
    let listing = fs.dir_listing(sub, &vec![("a.png".to_string(), FileKind::RegularFile)]);
    assert_eq!(
        view(&listing),
        vec![
            (sub, FileKind::Directory, ".".to_string()),
            (2, FileKind::Directory, "..".to_string()),
            (sub + 1, FileKind::RegularFile, "a.png".to_string()),
        ]
    );
    assert_eq!(fs.parent_ino(2), ROOT_INO);
    assert_eq!(fs.parent_ino(sub), 2);
    assert_eq!(fs.parent_ino(sub + 1), sub);
}

#[test]
fn an_unknown_parent_path_lists_the_root_as_parent() {
    let mut fs = drive();
    let deep = fs.find_or_alloc_ino("/elsewhere/x");
    assert_eq!(fs.parent_ino(deep), ROOT_INO);
}

fn sample(n: u64) -> Vec<DirEntry> {
    (0..n).map(|i| DirEntry { ino: 10 + i, kind: FileKind::RegularFile, name: format!("f{}", i) }).collect()
}

#[test]
fn a_page_starts_at_the_offset() {
    let listing = sample(5);
    let page = dir_page(&listing, 0);
    assert_eq!(page.len(), 5);
    for (k, (e, off)) in page.iter().enumerate() {
        assert_eq!(e.ino, 10 + k as u64);
        assert_eq!(*off, k as i64 + 1);
    }
    let page = dir_page(&listing, 3);
    assert_eq!(page.len(), 2);
    assert_eq!(page[0].0.name, "f3");
    assert_eq!(page[0].1, 4);
    assert_eq!(page[1].1, 5);
}

#[test]
fn a_page_resumes_after_the_last_entry_read() {
    let listing = sample(5);
    let first = dir_page(&listing, 0);
    let resume = first[1].1;
    let rest = dir_page(&listing, resume);
    assert_eq!(rest.len(), 3);
    assert_eq!(rest[0].0.name, "f2");
}

#[test]
fn a_page_past_the_end_is_empty() {
    let listing = sample(3);
    assert!(dir_page(&listing, 3).is_empty());
    assert!(dir_page(&listing, 100).is_empty());
    assert!(dir_page(&listing, -1).is_empty());
}

#[test]
fn reads_from_a_buffer_stay_inside_it() {
    assert_eq!(read_range(10, 0, 4), (0, 4));
    assert_eq!(read_range(10, 8, 4), (8, 10));
    assert_eq!(read_range(10, 10, 4), (10, 10));
    assert_eq!(read_range(10, 50, 4), (10, 10));
    assert_eq!(read_range(10, -3, 4), (10, 10));
    assert_eq!(read_range(10, 2, 0), (2, 2));
    assert_eq!(read_range(0, 0, 4096), (0, 0));
    assert_eq!(read_range(usize::MAX, 5, u32::MAX), (5, 5 + u32::MAX as usize));
}

#[test]
fn opening_a_drive_directory_is_refused() {
    let mut fs = drive();
    assert!(matches!(fs.begin_open(ROOT_INO), Err(Errno::IsDir)));
    assert!(matches!(fs.begin_open(2), Err(Errno::IsDir)));
    assert!(matches!(fs.begin_open(3), Err(Errno::IsDir)));
}

#[test]
fn opening_an_unknown_inode_is_not_found() {
    let mut fs = drive();
    assert!(matches!(fs.begin_open(42), Err(Errno::NotFound)));
}

#[test]
fn opening_a_file_hands_out_fresh_handles() {
    let mut fs = drive();
    let photo = fs.find_or_alloc_ino("/home/alice/Downloads/photo.JPG");
    let notes = fs.find_or_alloc_ino("/home/alice/Downloads/notes.txt");
    let p = fs.begin_open(photo).ok().unwrap();
    assert_eq!(p.fh(), 1);
    assert_eq!(p.path(), "/home/alice/Downloads/photo.JPG");
    assert!(p.strip());
    let q = fs.begin_open(notes).ok().unwrap();
    assert_eq!(q.fh(), 2);
    assert!(!q.strip());
    // A refused open hands out no handle.
    assert!(fs.begin_open(ROOT_INO).is_err());
    assert_eq!(fs.next_fh(), 3);
}

#[test]
fn failed_opens_map_to_errors() {
    assert_eq!(open_failure(true, true), Errno::Io);
    assert_eq!(open_failure(true, false), Errno::Io);
    assert_eq!(open_failure(false, true), Errno::NotFound);
    assert_eq!(open_failure(false, false), Errno::Access);
}

#[test]
fn open_files_are_kept_until_released() {
    let mut fs = drive();
    let x = fs.find_or_alloc_ino("/home/alice/Downloads/x.jpg");
    let y = fs.find_or_alloc_ino("/home/alice/Downloads/y.txt");
    let pa = fs.begin_open(x).ok().unwrap();
    let pb = fs.begin_open(y).ok().unwrap();
    let (a, b) = (pa.fh(), pb.fh());
    assert!(fs.open_file(a).is_none());
    assert!(fs.register_open(pa, OpenFile::Buffer(vec![1, 2, 3])));
    assert!(fs.register_open(pb, OpenFile::Passthrough(7)));
    match fs.open_file(a) {
        Some(OpenFile::Buffer(bytes)) => assert_eq!(bytes, &vec![1, 2, 3]),
        _ => panic!("buffer expected"),
    }
    match fs.open_file(b) {
        Some(OpenFile::Passthrough(f)) => assert_eq!(*f, 7),
        _ => panic!("passthrough expected"),
    }
    fs.release(a);
    assert!(fs.open_file(a).is_none());
    assert!(fs.open_file(b).is_some());
    fs.release(a);
    assert!(fs.open_file(99).is_none());
}

#[test]
fn an_abandoned_open_leaves_no_handle() {
    let mut fs = drive();
    let x = fs.find_or_alloc_ino("/home/alice/Downloads/x.jpg");
    let plan = fs.begin_open(x).ok().unwrap();
    let fh = plan.fh();
    fs.abandon_open(plan);
    assert!(fs.open_file(fh).is_none());
    let next = fs.begin_open(x).ok().unwrap();
    assert_eq!(next.fh(), fh + 1);
}

#[test]
fn paths_are_matched_component_by_component() {
    let mut fs = drive();
    let b = fs.find_or_alloc_ino("/home/alice/Downloads/a/b");
    assert_eq!(fs.find_or_alloc_ino("/home/alice/Downloads/a//b"), b);
    assert_eq!(fs.find_or_alloc_ino("/home/alice/Downloads/a/./b/"), b);
    assert_eq!(fs.find_or_alloc_ino("//home/alice/Downloads/a/b"), b);
    assert_eq!(fs.ino_of("/home/alice/Downloads/a/b/."), Some(b));
    assert_eq!(fs.ino_of("/home/alice/Downloads/a/c"), None);
    assert_eq!(fs.next_ino(), b + 1);
    // The table keeps the spelling it first saw.
    assert_eq!(fs.path_of(b).as_deref(), Some("/home/alice/Downloads/a/b"));
    // `..` is a component of its own.
    assert_ne!(fs.find_or_alloc_ino("/home/alice/Downloads/a/../a/b"), b);
}

#[test]
fn a_folder_written_with_a_trailing_slash_is_its_own_parent() {
    let mut fs: MetaFS<u32> = MetaFS::new(
        vec![("d".to_string(), "/d/".to_string())],
        "/tmp".to_string(),
        "/m".to_string(),
        started(),
    );
    let x = fs.find_or_alloc_ino("/d/x");
    assert_eq!(fs.parent_ino(x), 2);
    assert_eq!(fs.find_or_alloc_ino("/d"), 2);
}

#[test]
fn a_mountpoint_written_with_a_trailing_slash_is_still_hidden() {
    let mut fs: MetaFS<u32> = MetaFS::new(
        vec![("home".to_string(), "/home/alice".to_string())],
        "/tmp".to_string(),
        "/home/alice/scrubfs/".to_string(),
        started(),
    );
    let children = vec![
        ("scrubfs".to_string(), FileKind::Directory),
        ("notes.txt".to_string(), FileKind::RegularFile),
    ];
    let listing = fs.dir_listing(2, &children);
    assert_eq!(
        view(&listing),
        vec![
            (2, FileKind::Directory, ".".to_string()),
            (1, FileKind::Directory, "..".to_string()),
            (3, FileKind::RegularFile, "notes.txt".to_string()),
        ]
    );
    assert_eq!(fs.ino_of("/home/alice/scrubfs"), None);
}

#[test]
fn listing_and_lookup_give_the_same_inode() {
    let mut fs = drive();
    let listing = fs.dir_listing(2, &vec![("a.png".to_string(), FileKind::RegularFile)]);
    let listed = listing[2].ino;
    fs.find_or_alloc_ino("/home/alice/Downloads/other");
    let child = fs.child_path(2, "a.png").unwrap();
    assert_eq!(fs.find_or_alloc_ino(&child), listed);
}

fn meta() -> FileMeta {
    FileMeta {
        is_dir: false,
        is_symlink: false,
        len: 1234,
        blocks: 8,
        accessed: Some(Timestamp { before_epoch: false, secs: 100, nanos: 5 }),
        modified: None,
        ctime: 300,
        mode: 0o100644,
        nlink: 1,
        uid: 1000,
        gid: 100,
        rdev: 0,
    }
}

#[test]
fn attributes_copy_the_file_status() {
    let a = make_attr(7, &meta());
    assert_eq!(a.ino, 7);
    assert_eq!(a.size, 1234);
    assert_eq!(a.blocks, 8);
    assert_eq!(a.atime, Timestamp { before_epoch: false, secs: 100, nanos: 5 });
    assert_eq!(a.mtime, Timestamp { before_epoch: false, secs: 0, nanos: 0 });
    assert_eq!(a.ctime, Timestamp { before_epoch: false, secs: 300, nanos: 0 });
    assert_eq!(a.crtime, Timestamp { before_epoch: false, secs: 0, nanos: 0 });
    assert_eq!(a.kind, FileKind::RegularFile);
    assert_eq!(a.perm, 0o644);
    assert_eq!((a.nlink, a.uid, a.gid, a.rdev, a.blksize, a.flags), (1, 1000, 100, 0, 4096, 0));
}

#[test]
fn attributes_tell_directories_and_links() {
    let mut m = meta();
    m.is_dir = true;
    m.mode = 0o040755;
    assert_eq!(make_attr(2, &m).kind, FileKind::Directory);
    assert_eq!(make_attr(2, &m).perm, 0o755);
    m.is_dir = false;
    m.is_symlink = true;
    assert_eq!(make_attr(2, &m).kind, FileKind::Symlink);
}

#[test]
fn attributes_clamp_and_truncate_like_the_kernel_fields() {
    let mut m = meta();
    m.ctime = -20;
    m.nlink = (1u64 << 32) + 3;
    m.rdev = (1u64 << 33) + 9;
    m.mode = 0o107777;
    let a = make_attr(2, &m);
    assert_eq!(a.ctime, Timestamp { before_epoch: false, secs: 0, nanos: 0 });
    assert_eq!(a.nlink, 3);
    assert_eq!(a.rdev, 9);
    assert_eq!(a.perm, 0o777);
}

#[test]
fn the_root_is_a_read_only_directory() {
    let fs = drive();
    let a = fs.root_attr(1000, 100);
    assert_eq!(a.ino, ROOT_INO);
    assert_eq!(a.kind, FileKind::Directory);
    assert_eq!(a.perm, 0o555);
    assert_eq!(a.nlink, 2);
    assert_eq!((a.uid, a.gid), (1000, 100));
    assert_eq!(a.atime, started());
    assert_eq!(a.mtime, started());
    assert_eq!(a.ctime, started());
    assert_eq!(a.crtime, Timestamp { before_epoch: false, secs: 0, nanos: 0 });
}

#[test]
fn a_lookup_of_a_missing_child_gives_no_inode() {
    let mut fs = drive();
    assert_eq!(fs.lookup_child("/home/alice/Downloads/gone.txt", false), Err(Errno::NotFound));
    assert_eq!(fs.next_ino(), 4);
    assert_eq!(fs.ino_of("/home/alice/Downloads/gone.txt"), None);
    assert_eq!(fs.lookup_child("/home/alice/Downloads/here.txt", true), Ok(4));
    assert_eq!(fs.lookup_child("/home/alice/Downloads/./here.txt", true), Ok(4));
    assert_eq!(fs.next_ino(), 5);
}

#[test]
fn a_listed_inode_survives_later_calls() {
    let mut fs = drive();
    let listing = fs.dir_listing(2, &vec![("a.png".to_string(), FileKind::RegularFile)]);
    let listed = listing[2].ino;
    // Calls of every kind in between.
    fs.dir_listing(3, &vec![("b.txt".to_string(), FileKind::RegularFile)]);
    let _ = fs.lookup_child("/home/alice/Downloads/missing", false);
    let _ = fs.lookup_child("/home/alice/Downloads/other", true);
    let opened = fs.open_start(listed);
    let plan = match opened {
        OpenAction::Strip(plan) => plan,
        _ => panic!("a png is stripped"),
    };
    let fh = plan.fh();
    assert!(matches!(fs.open_advance(plan, OpenEvent::Stripped(vec![9])), OpenAction::Opened(h) if h == fh));
    fs.release(fh);
    let child = fs.child_path(2, "a.png").unwrap();
    assert_eq!(fs.lookup_child(&child, true), Ok(listed));
    assert_eq!(fs.ino_of("/home/alice/Downloads/a.png"), Some(listed));
}

#[test]
fn a_released_handle_stays_closed() {
    let mut fs = drive();
    let x = fs.find_or_alloc_ino("/home/alice/Downloads/x.txt");
    let plan = match fs.open_start(x) {
        OpenAction::OpenPlain(plan) => plan,
        _ => panic!("a text file is opened as it is"),
    };
    let fh = plan.fh();
    assert!(matches!(fs.open_advance(plan, OpenEvent::Opened(5)), OpenAction::Opened(h) if h == fh));
    assert!(fs.open_file(fh).is_some());
    fs.release(fh);
    assert!(fs.open_file(fh).is_none());
    // Later opens and listings do not bring the handle back.
    let again = match fs.open_start(x) {
        OpenAction::OpenPlain(plan) => plan,
        _ => panic!("a text file is opened as it is"),
    };
    assert_ne!(again.fh(), fh);
    let _ = fs.open_advance(again, OpenEvent::Opened(6));
    fs.dir_listing(2, &vec![("y".to_string(), FileKind::RegularFile)]);
    assert!(fs.open_file(fh).is_none());
}

#[test]
fn open_start_refuses_directories_and_unknown_inodes() {
    let mut fs = drive();
    assert!(matches!(fs.open_start(ROOT_INO), OpenAction::Failed(Errno::IsDir)));
    assert!(matches!(fs.open_start(2), OpenAction::Failed(Errno::IsDir)));
    assert!(matches!(fs.open_start(77), OpenAction::Failed(Errno::NotFound)));
    assert_eq!(fs.next_fh(), 1);
}

#[test]
fn a_failed_strip_falls_back_to_a_plain_open() {
    let mut fs = drive();
    let x = fs.find_or_alloc_ino("/home/alice/Downloads/scan.PDF");
    let plan = match fs.open_start(x) {
        OpenAction::Strip(plan) => plan,
        _ => panic!("a pdf is stripped"),
    };
    let fh = plan.fh();
    let plain = match fs.open_advance(plan, OpenEvent::StripFailed) {
        OpenAction::OpenPlain(plan) => plan,
        _ => panic!("a failed strip opens the file as it is"),
    };
    assert_eq!(plain.fh(), fh);
    assert_eq!(plain.path(), "/home/alice/Downloads/scan.PDF");
    assert!(matches!(fs.open_advance(plain, OpenEvent::Opened(3)), OpenAction::Opened(h) if h == fh));
    match fs.open_file(fh) {
        Some(OpenFile::Passthrough(f)) => assert_eq!(*f, 3),
        _ => panic!("passthrough expected"),
    }
}

#[test]
fn a_failed_fallback_open_is_an_input_output_error() {
    let mut fs = drive();
    let x = fs.find_or_alloc_ino("/home/alice/Downloads/scan.pdf");
    let plan = match fs.open_start(x) {
        OpenAction::Strip(plan) => plan,
        _ => panic!("a pdf is stripped"),
    };
    let fh = plan.fh();
    let plain = match fs.open_advance(plan, OpenEvent::StripFailed) {
        OpenAction::OpenPlain(plan) => plan,
        _ => panic!("a failed strip opens the file as it is"),
    };
    assert!(matches!(
        fs.open_advance(plain, OpenEvent::OpenFailed { not_found: true }),
        OpenAction::Failed(Errno::Io)
    ));
    assert!(fs.open_file(fh).is_none());
}

#[test]
fn a_failed_plain_open_says_why() {
    let mut fs = drive();
    let x = fs.find_or_alloc_ino("/home/alice/Downloads/a.txt");
    let y = fs.find_or_alloc_ino("/home/alice/Downloads/b.txt");
    let pa = match fs.open_start(x) {
        OpenAction::OpenPlain(plan) => plan,
        _ => panic!("a text file is opened as it is"),
    };
    let pb = match fs.open_start(y) {
        OpenAction::OpenPlain(plan) => plan,
        _ => panic!("a text file is opened as it is"),
    };
    assert!(matches!(
        fs.open_advance(pa, OpenEvent::OpenFailed { not_found: true }),
        OpenAction::Failed(Errno::NotFound)
    ));
    assert!(matches!(
        fs.open_advance(pb, OpenEvent::OpenFailed { not_found: false }),
        OpenAction::Failed(Errno::Access)
    ));
}

#[test]
fn stripped_bytes_are_served_from_a_buffer() {
    let mut fs = drive();
    let x = fs.find_or_alloc_ino("/home/alice/Downloads/p.jpeg");
    let plan = match fs.open_start(x) {
        OpenAction::Strip(plan) => plan,
        _ => panic!("a jpeg is stripped"),
    };
    let fh = plan.fh();
    assert!(matches!(fs.open_advance(plan, OpenEvent::Stripped(vec![1, 2])), OpenAction::Opened(h) if h == fh));
    match fs.open_file(fh) {
        Some(OpenFile::Buffer(bytes)) => assert_eq!(bytes, &vec![1, 2]),
        _ => panic!("buffer expected"),
    }
}

#[test]
fn a_handle_given_up_is_not_handed_out_again() {
    let mut fs = drive();
    let x = fs.find_or_alloc_ino("/home/alice/Downloads/a.txt");
    let plan = match fs.open_start(x) {
        OpenAction::OpenPlain(plan) => plan,
        _ => panic!("a text file is opened as it is"),
    };
    let fh = plan.fh();
    fs.abandon_open(plan);
    let stale = match fs.open_start(x) {
        OpenAction::OpenPlain(plan) => plan,
        _ => panic!("a text file is opened as it is"),
    };
    assert_eq!(stale.fh(), fh + 1);
    assert!(matches!(fs.open_advance(stale, OpenEvent::Opened(1)), OpenAction::Opened(_)));
}
