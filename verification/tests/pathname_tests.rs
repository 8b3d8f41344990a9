use scrubfs::pathname::{extension, extension_of_name, file_name, normalize_path, parent_path, path_parts};

#[test]
fn plain_spelling_drops_empty_and_dot_components() {
    assert_eq!(normalize_path("/a//b/./c/"), "/a/b/c");
    assert_eq!(normalize_path("//"), "/");
    assert_eq!(normalize_path("/"), "/");
    assert_eq!(normalize_path(""), "");
    assert_eq!(normalize_path("a/b"), "a/b");
    assert_eq!(normalize_path("a/./b/."), "a/b");
}

#[test]
fn a_leading_dot_of_a_relative_path_is_kept() {
    assert_eq!(normalize_path("./a"), "./a");
    assert_eq!(normalize_path(".//a"), "./a");
    assert_eq!(normalize_path("."), ".");
    assert_eq!(normalize_path("./"), ".");
    assert_eq!(normalize_path("/./a"), "/a");
}

#[test]
fn parent_directories_are_kept() {
    assert_eq!(normalize_path("a/../b"), "a/../b");
    assert_eq!(path_parts("/x/../y"), vec!["x".to_string(), "..".to_string(), "y".to_string()]);
}

#[test]
fn parents_drop_the_last_component() {
    assert_eq!(parent_path("/a/b/c").as_deref(), Some("/a/b"));
    assert_eq!(parent_path("/a/b/").as_deref(), Some("/a"));
    assert_eq!(parent_path("/a").as_deref(), Some("/"));
    assert_eq!(parent_path("a").as_deref(), Some(""));
    assert_eq!(parent_path("/"), None);
    assert_eq!(parent_path(""), None);
}

#[test]
fn file_names_are_the_last_named_component() {
    assert_eq!(file_name("/home/alice/Downloads").as_deref(), Some("Downloads"));
    assert_eq!(file_name("/home/alice/Downloads/").as_deref(), Some("Downloads"));
    assert_eq!(file_name("/home/alice/x/.").as_deref(), Some("x"));
    assert_eq!(file_name("/home/alice/.."), None);
    assert_eq!(file_name("/"), None);
    assert_eq!(file_name("."), None);
    assert_eq!(file_name(""), None);
}

#[test]
fn extensions_follow_the_last_dot() {
    assert_eq!(extension_of_name("IMG_001.JPG").as_deref(), Some("JPG"));
    assert_eq!(extension_of_name("backup.tar.gz").as_deref(), Some("gz"));
    assert_eq!(extension_of_name("trailing.").as_deref(), Some(""));
    assert_eq!(extension_of_name("Makefile"), None);
    assert_eq!(extension_of_name(".png"), None);
    assert_eq!(extension_of_name("..png").as_deref(), Some("png"));
    assert_eq!(extension("/photos/IMG_001.JPG").as_deref(), Some("JPG"));
    assert_eq!(extension("/photos.d/Makefile"), None);
}
